use vstd::prelude::*;
use vstd::string::*;
use crate::types::{DuplicateGroup, FileEntry, GroupView};
use crate::duplicate_laws::lemma_groups_valid;
use crate::path_resolver::{decimal, decimal_string};
use sha2::Digest;

verus! {

/// The MD5 digest of a run of bytes, in lower-case hexadecimal.
pub uninterp spec fn md5_hex(data: Seq<u8>) -> Seq<char>;

/// The SHA-256 digest of a run of bytes, in lower-case hexadecimal.
pub uninterp spec fn sha256_hex(data: Seq<u8>) -> Seq<char>;

/// Calls `md5::compute` and writes the digest in lower-case hexadecimal. The
/// contract only names the result, which depends on the bytes alone.
#[verifier::external_body]
fn md5_digest_hex(data: &[u8]) -> (r: String)
    ensures
        r@ == md5_hex(data@),
{
    format!("{:x}", md5::compute(data))
}

/// Calls `Sha256::digest` of the crate sha2 and writes the digest in
/// lower-case hexadecimal. The contract only names the result, which depends
/// on the bytes alone.
#[verifier::external_body]
fn sha256_digest_hex(data: &[u8]) -> (r: String)
    ensures
        r@ == sha256_hex(data@),
{
    format!("{:x}", sha2::Sha256::digest(data))
}

/// What stands for the content of a file: its length and two digests.
#[derive(Debug)]
pub struct ContentIdentity {
    pub size: usize,
    pub md5: String,
    pub sha256: String,
}

impl ContentIdentity {
    /// Whether this is the identity of the given bytes.
    pub open spec fn is_of(&self, data: Seq<u8>) -> bool {
        &&& self.size == data.len()
        &&& self.md5@ == md5_hex(data)
        &&& self.sha256@ == sha256_hex(data)
    }

    /// Whether two identities agree in length and in both digests.
    pub fn matches(&self, other: &ContentIdentity) -> (r: bool)
        ensures
            r == (self.size == other.size && self.md5@ == other.md5@ && self.sha256@ == other.sha256@),
    {
        self.size == other.size && self.md5 == other.md5 && self.sha256 == other.sha256
    }

    /// The key under which files of this identity are collected: the
    /// length in decimal digits and the two digests, with an underscore
    /// between each two of them.
    pub fn key(&self) -> (r: String)
        ensures
            r@ == checksum_key_of(self.size as nat, self.md5@, self.sha256@),
    {
        let mut k = decimal_string(self.size as u128);
        k.append("_");
        k.append(self.md5.as_str());
        k.append("_");
        k.append(self.sha256.as_str());
        k
    }
}

/// The key made of a length and two digests.
pub open spec fn checksum_key_of(size: nat, md5: Seq<char>, sha256: Seq<char>) -> Seq<char> {
    decimal(size) + "_"@ + md5 + "_"@ + sha256
}

/// The key of a file's content: its length, its MD5 digest and its SHA-256
/// digest.
pub open spec fn content_key(data: Seq<u8>) -> Seq<char> {
    checksum_key_of(data.len(), md5_hex(data), sha256_hex(data))
}

/// Whether two runs of bytes are the same, byte for byte.
pub fn bytes_equal(a: &[u8], b: &[u8]) -> (r: bool)
    ensures
        r == (a@ == b@),
{
    if a.len() != b.len() {
        return false;
    }
    let mut i: usize = 0;
    while i < a.len()
        invariant
            i <= a.len(),
            a.len() == b.len(),
            forall|k: int| 0 <= k < i ==> a@[k] == b@[k],
        decreases a.len() - i,
    {
        if a[i] != b[i] {
            return false;
        }
        i += 1;
    }
    assert(a@ =~= b@);
    true
}

/// A file as the scan of its content left it: the entry, the bytes if they
/// could be read, and the time of creation if the system gave one.
#[derive(Debug)]
pub struct ScannedFile {
    pub entry: FileEntry,
    pub content: Option<Vec<u8>>,
    pub created: Option<u64>,
}

/// Whether the files at `i` and `j` could both be read and hold the same
/// bytes.
pub open spec fn same_content(files: Seq<ScannedFile>, i: int, j: int) -> bool {
    &&& files[i].content is Some
    &&& files[j].content is Some
    &&& files[i].content->0@ == files[j].content->0@
}

/// The time by which a file is ordered in its group. A file without a time
/// of creation comes after every file that has one.
pub open spec fn time_key(created: Option<u64>) -> int {
    match created {
        Some(t) => t as int,
        None => u64::MAX as int + 1,
    }
}

/// Whether the file at `a` stands before the file at `b` in a group: it was
/// created earlier, or at the same time and found earlier.
pub open spec fn stands_before(files: Seq<ScannedFile>, a: int, b: int) -> bool {
    time_key(files[a].created) < time_key(files[b].created) || (time_key(files[a].created)
        == time_key(files[b].created) && a < b)
}

/// Where the file at `j` enters a group `m`: behind the last member that
/// was not created after it.
pub open spec fn entry_position(files: Seq<ScannedFile>, m: Seq<int>, j: int) -> int
    decreases m.len(),
{
    if m.len() == 0 {
        0
    } else if time_key(files[m.last()].created) <= time_key(files[j].created) {
        m.len() as int
    } else {
        entry_position(files, m.drop_last(), j)
    }
}

/// The group of the file at `i`, as far as the first `n` files go: `i`
/// itself and every later file with the same content, oldest first.
pub open spec fn members(files: Seq<ScannedFile>, i: int, n: int) -> Seq<int>
    decreases n,
{
    if n <= i + 1 || n <= 0 {
        seq![i]
    } else if same_content(files, i, n - 1) {
        let m = members(files, i, n - 1);
        m.insert(entry_position(files, m, n - 1), n - 1)
    } else {
        members(files, i, n - 1)
    }
}

/// Whether the file at `i` could be read and no file before it holds the
/// same bytes.
pub open spec fn is_first(files: Seq<ScannedFile>, i: int) -> bool {
    files[i].content is Some && forall|j: int| 0 <= j < i ==> !same_content(files, j, i)
}

/// The groups that start among the first `n` files, in the order of their
/// first members. A group has at least two members.
pub open spec fn groups(files: Seq<ScannedFile>, n: int) -> Seq<Seq<int>>
    decreases n,
{
    if n <= 0 {
        Seq::empty()
    } else {
        let g = members(files, n - 1, files.len() as int);
        if is_first(files, n - 1) && g.len() >= 2 {
            groups(files, n - 1).push(g)
        } else {
            groups(files, n - 1)
        }
    }
}

/// The group that the files at the given places form.
pub open spec fn group_view(files: Seq<ScannedFile>, m: Seq<int>) -> GroupView {
    GroupView {
        checksum_key: content_key(files[m[0]].content->0@),
        files: Seq::new(m.len(), |k: int| files[m[k]].entry@),
    }
}

/// Whether a created after b, a missing time counting as the latest.
fn created_after(a: Option<u64>, b: Option<u64>) -> (r: bool)
    ensures
        r == (time_key(a) > time_key(b)),
{
    match a {
        Some(x) => match b {
            Some(y) => x > y,
            None => false,
        },
        None => b.is_some(),
    }
}

/// Finds the files that hold the same bytes.
pub struct DuplicateFinder {
    pub verbose: bool,
}

impl DuplicateFinder {
    pub fn new(verbose: bool) -> (r: Self)
        ensures
            r.verbose == verbose,
    {
        Self { verbose }
    }

    /// The two digests of a file's bytes, MD5 first.
    pub fn calculate_checksums(data: &[u8]) -> (r: (String, String))
        ensures
            r.0@ == md5_hex(data@),
            r.1@ == sha256_hex(data@),
    {
        (md5_digest_hex(data), sha256_digest_hex(data))
    }

    /// The identity of a file's bytes.
    pub fn fingerprint(data: &[u8]) -> (r: ContentIdentity)
        ensures
            r.is_of(data@),
    {
        let sums = Self::calculate_checksums(data);
        ContentIdentity { size: data.len(), md5: sums.0, sha256: sums.1 }
    }

    /// Whether two files hold the same bytes, given the identity of each:
    /// the lengths are compared first, then the digests, and the bytes only
    /// where all of these agree.
    pub fn identical_by_identity(id1: &ContentIdentity, file1: &[u8], id2: &ContentIdentity, file2: &[u8]) -> (r: bool)
        requires
            id1.is_of(file1@),
            id2.is_of(file2@),
        ensures
            r == (file1@ == file2@),
    {
        if id1.size != id2.size {
            return false;
        }
        if !id1.matches(id2) {
            return false;
        }
        bytes_equal(file1, file2)
    }

    /// Whether two files hold the same bytes.
    pub fn are_files_identical(file1: &[u8], file2: &[u8]) -> (r: bool)
        ensures
            r == (file1@ == file2@),
    {
        if file1.len() != file2.len() {
            return false;
        }
        let id1 = Self::fingerprint(file1);
        let id2 = Self::fingerprint(file2);
        Self::identical_by_identity(&id1, file1, &id2, file2)
    }

    /// The identity of every file that could be read.
    pub fn fingerprint_all(files: &Vec<ScannedFile>) -> (r: Vec<Option<ContentIdentity>>)
        ensures
            identities_of(files@, r@),
    {
        let mut ids: Vec<Option<ContentIdentity>> = Vec::new();
        let mut i: usize = 0;
        while i < files.len()
            invariant
                i <= files.len(),
                ids.len() == i,
                forall|k: int| 0 <= k < i ==> identity_at(files@, #[trigger] ids@[k], k),
            decreases files.len() - i,
        {
            let id = match &files[i].content {
                Some(data) => Some(Self::fingerprint(data.as_slice())),
                None => None,
            };
            ids.push(id);
            i += 1;
        }
        ids
    }

    /// The groups of files with the same bytes, each as the places of its
    /// members in `files`: the oldest member first, the groups in the order of
    /// their first-found members.
    pub fn duplicate_indices(files: &Vec<ScannedFile>) -> (r: Vec<Vec<usize>>)
        ensures
            r.len() == groups(files@, files.len() as int).len(),
            forall|g: int| 0 <= g < r.len() ==> index_view(#[trigger] r[g]@) == groups(files@, files.len() as int)[g],
    {
        let ids = Self::fingerprint_all(files);
        let n = files.len();
        let mut out: Vec<Vec<usize>> = Vec::new();
        let mut i: usize = 0;
        while i < n
            invariant
                i <= n,
                n == files.len(),
                identities_of(files@, ids@),
                out.len() == groups(files@, i as int).len(),
                forall|g: int| 0 <= g < out.len() ==> index_view(#[trigger] out[g]@) == groups(files@, i as int)[g],
            decreases n - i,
        {
            let first = Self::check_first(files, &ids, i);
            let m = Self::collect_members(files, &ids, i);
            if first && m.len() >= 2 {
                out.push(m);
            }
            i += 1;
        }
        out
    }

    /// Whether the file at `i` could be read and no earlier file holds the
    /// same bytes.
    fn check_first(files: &Vec<ScannedFile>, ids: &Vec<Option<ContentIdentity>>, i: usize) -> (r: bool)
        requires
            i < files.len(),
            identities_of(files@, ids@),
        ensures
            r == is_first(files@, i as int),
    {
        if files[i].content.is_none() {
            return false;
        }
        let mut j: usize = 0;
        while j < i
            invariant
                j <= i,
                i < files.len(),
                identities_of(files@, ids@),
                files[i as int].content is Some,
                forall|k: int| 0 <= k < j ==> !same_content(files@, k, i as int),
            decreases i - j,
        {
            if Self::same_at(files, ids, j, i) {
                return false;
            }
            j += 1;
        }
        true
    }

    /// Whether the files at `i` and `j` could both be read and hold the same
    /// bytes.
    fn same_at(files: &Vec<ScannedFile>, ids: &Vec<Option<ContentIdentity>>, i: usize, j: usize) -> (r: bool)
        requires
            i < files.len(),
            j < files.len(),
            identities_of(files@, ids@),
        ensures
            r == same_content(files@, i as int, j as int),
    {
        assert(identity_at(files@, ids@[i as int], i as int));
        assert(identity_at(files@, ids@[j as int], j as int));
        match (&files[i].content, &files[j].content, &ids[i], &ids[j]) {
            (Some(a), Some(b), Some(ia), Some(ib)) => Self::identical_by_identity(ia, a.as_slice(), ib, b.as_slice()),
            _ => false,
        }
    }

    /// The file at `i` and the later files with the same bytes, oldest first.
    fn collect_members(files: &Vec<ScannedFile>, ids: &Vec<Option<ContentIdentity>>, i: usize) -> (r: Vec<usize>)
        requires
            i < files.len(),
            identities_of(files@, ids@),
        ensures
            index_view(r@) == members(files@, i as int, files.len() as int),
            r.len() >= 1,
            forall|k: int| 0 <= k < r.len() ==> r[k] < files.len(),
    {
        let mut m: Vec<usize> = Vec::new();
        m.push(i);
        assert(index_view(m@) =~= seq![i as int]);
        let mut j: usize = i + 1;
        while j < files.len()
            invariant
                i < j <= files.len(),
                identities_of(files@, ids@),
                index_view(m@) == members(files@, i as int, j as int),
                m.len() >= 1,
                forall|k: int| 0 <= k < m.len() ==> m[k] < files.len(),
            decreases files.len() - j,
        {
            if Self::same_at(files, ids, i, j) {
                let mut p: usize = m.len();
                let ghost mv = index_view(m@);
                assert(mv.take(m.len() as int) =~= mv);
                while p > 0 && created_after(files[m[p - 1]].created, files[j].created)
                    invariant
                        p <= m.len(),
                        j < files.len(),
                        mv == index_view(m@),
                        forall|k: int| 0 <= k < m.len() ==> m[k] < files.len(),
                        entry_position(files@, mv, j as int) == entry_position(files@, mv.take(p as int), j as int),
                    decreases p,
                {
                    assert(mv.take(p as int).drop_last() =~= mv.take(p as int - 1));
                    p -= 1;
                }
                assert(entry_position(files@, mv, j as int) == p) by {
                    if p > 0 {
                        assert(mv.take(p as int).last() == m[p as int - 1]);
                    }
                }
                m.insert(p, j);
                assert(index_view(m@) =~= mv.insert(p as int, j as int));
            }
            j += 1;
        }
        m
    }

    /// The groups of files with the same bytes. A file that could not be
    /// read is in no group. Each group has at least two members: the one
    /// that was created first stands first, a file without a time of creation
    /// stands after those that have one, and files of one time stand as they
    /// were found. The groups come in the order of their first-found members.
    pub fn find_duplicates(&self, files: &Vec<ScannedFile>) -> (r: Vec<DuplicateGroup>)
        ensures
            r.len() == groups(files@, files.len() as int).len(),
            forall|g: int| 0 <= g < r.len() ==> (#[trigger] r[g])@ == group_view(files@, groups(files@, files.len() as int)[g]),
            forall|g: int| 0 <= g < r.len() ==> (#[trigger] r[g]).well_formed(),
    {
        let idx = Self::duplicate_indices(files);
        let mut out: Vec<DuplicateGroup> = Vec::new();
        let mut g: usize = 0;
        proof {
            lemma_groups_valid(files@, files.len() as int);
        }
        while g < idx.len()
            invariant
                g <= idx.len(),
                out.len() == g,
                idx.len() == groups(files@, files.len() as int).len(),
                forall|h: int| 0 <= h < idx.len() ==> index_view(#[trigger] idx[h]@) == groups(files@, files.len() as int)[h],
                forall|h: int| 0 <= h < g ==> (#[trigger] out[h])@ == group_view(files@, groups(files@, files.len() as int)[h]),
                forall|h: int| 0 <= h < g ==> (#[trigger] out[h]).well_formed(),
                forall|h: int| 0 <= h < idx.len() ==> valid_group(files@, #[trigger] groups(files@, files.len() as int)[h]),
            decreases idx.len() - g,
        {
            let m = &idx[g];
            let ghost mv = groups(files@, files.len() as int)[g as int];
            assert(index_view(m@) == mv);
            assert(valid_group(files@, mv));
            assert(m.len() == mv.len());
            assert(forall|k: int| 0 <= k < m.len() ==> m[k] as int == #[trigger] mv[k]) by {
                assert forall|k: int| 0 <= k < m.len() implies m[k] as int == #[trigger] mv[k] by {
                    assert(index_view(m@)[k] == m@[k] as int);
                }
            }
            let mut members: Vec<FileEntry> = Vec::new();
            let mut k: usize = 0;
            while k < m.len()
                invariant
                    k <= m.len(),
                    members.len() == k,
                    m.len() == mv.len(),
                    valid_group(files@, mv),
                    forall|q: int| 0 <= q < m.len() ==> m[q] as int == #[trigger] mv[q],
                    forall|q: int| 0 <= q < k ==> (#[trigger] members[q])@ == files[mv[q]].entry@,
                decreases m.len() - k,
            {
                assert(0 <= mv[k as int] < files.len());
                members.push(files[m[k]].entry.clone());
                k += 1;
            }
            assert(0 <= mv[0] < files.len());
            let key = match &files[m[0]].content {
                Some(data) => Self::fingerprint(data.as_slice()).key(),
                None => String::new(),
            };
            let group = DuplicateGroup { checksum_key: key, files: members };
            assert(group@.files =~= group_view(files@, mv).files);
            out.push(group);
            g += 1;
        }
        out
    }
}

/// The places of a group as mathematical integers.
pub open spec fn index_view(m: Seq<usize>) -> Seq<int> {
    Seq::new(m.len(), |k: int| m[k] as int)
}

/// Whether `id` is what the scan holds for the file at `k`: the identity of
/// its bytes, or nothing where they could not be read.
pub open spec fn identity_at(files: Seq<ScannedFile>, id: Option<ContentIdentity>, k: int) -> bool {
    match files[k].content {
        Some(data) => id is Some && id->0.is_of(data@),
        None => id is None,
    }
}

/// Whether `ids` holds, place by place, the identities of `files`.
pub open spec fn identities_of(files: Seq<ScannedFile>, ids: Seq<Option<ContentIdentity>>) -> bool {
    ids.len() == files.len() && forall|k: int| 0 <= k < files.len() ==> identity_at(files, #[trigger] ids[k], k)
}

/// Whether a group is made of places of readable files, the first of them
/// included.
pub open spec fn valid_group(files: Seq<ScannedFile>, m: Seq<int>) -> bool {
    &&& m.len() >= 2
    &&& forall|k: int| 0 <= k < m.len() ==> 0 <= #[trigger] m[k] < files.len() && files[m[k]].content is Some
}

} // verus!
