use vstd::prelude::*;
use crate::types::{FilePath, PathView};

verus! {

/// The paths that a run of paths names.
pub open spec fn path_set(paths: Seq<FilePath>) -> Set<PathView> {
    Set::new(|p: PathView| exists|i: int| 0 <= i < paths.len() && (#[trigger] paths[i])@ == p)
}

/// The paths that exist at one moment, files and folders alike. The
/// relocation works on such a snapshot and never on the disk.
#[derive(Debug)]
pub struct DirSnapshot {
    pub paths: Vec<FilePath>,
}

impl View for DirSnapshot {
    type V = Set<PathView>;

    open spec fn view(&self) -> Set<PathView> {
        path_set(self.paths@)
    }
}

impl DirSnapshot {
    /// A snapshot in which nothing exists.
    pub fn new() -> (r: Self)
        ensures
            r@ == Set::<PathView>::empty(),
    {
        let r = DirSnapshot { paths: Vec::new() };
        assert(r@ =~= Set::<PathView>::empty());
        r
    }

    /// Whether a path exists.
    pub fn contains(&self, p: &FilePath) -> (r: bool)
        ensures
            r == self@.contains(p@),
    {
        let mut i: usize = 0;
        while i < self.paths.len()
            invariant
                i <= self.paths.len(),
                forall|k: int| 0 <= k < i ==> (#[trigger] self.paths[k])@ != p@,
            decreases self.paths.len() - i,
        {
            if self.paths[i].same_as(p) {
                return true;
            }
            i += 1;
        }
        false
    }

    /// Makes a path exist.
    pub fn add(&mut self, p: FilePath)
        ensures
            final(self)@ == old(self)@.insert(p@),
    {
        let ghost before = self.paths@;
        self.paths.push(p);
        assert(self.paths@[before.len() as int]@ == p@);
        assert forall|q: PathView| self@.contains(q) == path_set(before).insert(p@).contains(q) by {
            if self@.contains(q) {
                let i = choose|i: int| 0 <= i < self.paths@.len() && (#[trigger] self.paths@[i])@ == q;
                if i < before.len() {
                    assert(before[i]@ == q);
                }
            }
            if path_set(before).contains(q) {
                let i = choose|i: int| 0 <= i < before.len() && (#[trigger] before[i])@ == q;
                assert(self.paths@[i]@ == q);
            }
        }
        assert(self@ =~= old(self)@.insert(p@));
    }

    /// Makes a path exist no longer.
    pub fn remove(&mut self, p: &FilePath)
        ensures
            final(self)@ == old(self)@.remove(p@),
    {
        let mut kept: Vec<FilePath> = Vec::new();
        let mut i: usize = 0;
        while i < self.paths.len()
            invariant
                i <= self.paths.len(),
                forall|k: int| 0 <= k < kept.len() ==> (#[trigger] kept[k])@ != p@ && path_set(self.paths@).contains(kept[k]@),
                forall|j: int| 0 <= j < i && (#[trigger] self.paths[j])@ != p@ ==> path_set(kept@).contains(self.paths[j]@),
            decreases self.paths.len() - i,
        {
            if !self.paths[i].same_as(p) {
                let ghost before = kept@;
                kept.push(self.paths[i].clone());
                assert(kept@[before.len() as int]@ == self.paths[i as int]@);
                assert forall|j: int| 0 <= j < i + 1 && (#[trigger] self.paths[j])@ != p@ implies path_set(kept@).contains(self.paths[j]@) by {
                    if j < i {
                        let k = choose|k: int| 0 <= k < before.len() && (#[trigger] before[k])@ == self.paths[j]@;
                        assert(kept@[k]@ == self.paths[j]@);
                    }
                }
            }
            i += 1;
        }
        let ghost old_paths = self.paths@;
        self.paths = kept;
        assert forall|q: PathView| self@.contains(q) == path_set(old_paths).remove(p@).contains(q) by {
            if self@.contains(q) {
                let k = choose|k: int| 0 <= k < self.paths@.len() && (#[trigger] self.paths@[k])@ == q;
            }
            if path_set(old_paths).remove(p@).contains(q) {
                let j = choose|j: int| 0 <= j < old_paths.len() && (#[trigger] old_paths[j])@ == q;
            }
        }
        assert(self@ =~= old(self)@.remove(p@));
    }

    /// A copy of the snapshot.
    pub fn copy(&self) -> (r: Self)
        ensures
            r@ == self@,
    {
        let mut paths: Vec<FilePath> = Vec::new();
        let mut i: usize = 0;
        while i < self.paths.len()
            invariant
                i <= self.paths.len(),
                paths@ == self.paths@.take(i as int),
            decreases self.paths.len() - i,
        {
            paths.push(self.paths[i].clone());
            assert(paths@ =~= self.paths@.take(i + 1));
            i += 1;
        }
        assert(self.paths@.take(self.paths.len() as int) =~= self.paths@);
        DirSnapshot { paths }
    }
}

} // verus!
