//! A value-level model of a directory tree: the set of file paths with
//! their byte sizes, and the set of directory paths. The mirror and the
//! deployment synchronizer are verified against this model; the surrounding
//! application reads real directories into it and plays the planned
//! operations back onto the real file system.
use vstd::prelude::*;

use crate::text::str_eq;

verus! {

/// The view of a path: its components' character sequences.
pub open spec fn path_view(p: Seq<String>) -> Seq<Seq<char>> {
    p.map_values(|s: String| s@)
}

/// One file of a tree: its path (components from the tree root) and size.
pub struct FileRec {
    pub path: Vec<String>,
    pub size: u64,
}

/// A directory tree as the mirror and synchronizer see it.
pub struct FsTree {
    pub files: Vec<FileRec>,
    pub dirs: Vec<Vec<String>>,
}

/// The view of a file record: its path view paired with its size.
pub open spec fn file_view(f: FileRec) -> (Seq<Seq<char>>, u64) {
    (path_view(f.path@), f.size)
}

/// The view of a file list.
pub open spec fn files_view(files: Seq<FileRec>) -> Seq<(Seq<Seq<char>>, u64)> {
    files.map_values(|f: FileRec| file_view(f))
}

/// The view of a directory list.
pub open spec fn dirs_view(dirs: Seq<Vec<String>>) -> Seq<Seq<Seq<char>>> {
    dirs.map_values(|d: Vec<String>| path_view(d@))
}

/// The mapping from file path to file size that a file-view list denotes; a
/// later record wins.
pub open spec fn files_map_of(fv: Seq<(Seq<Seq<char>>, u64)>) -> Map<Seq<Seq<char>>, u64>
    decreases fv.len(),
{
    if fv.len() == 0 {
        Map::empty()
    } else {
        files_map_of(fv.drop_last()).insert(fv.last().0, fv.last().1)
    }
}

/// The set of directory paths that a directory-view list denotes.
pub open spec fn dirs_set_of(dv: Seq<Seq<Seq<char>>>) -> Set<Seq<Seq<char>>>
    decreases dv.len(),
{
    if dv.len() == 0 {
        Set::empty()
    } else {
        dirs_set_of(dv.drop_last()).insert(dv.last())
    }
}

/// Paths occur at most once.
pub open spec fn unique_paths(fv: Seq<(Seq<Seq<char>>, u64)>) -> bool {
    forall|i: int, j: int| 0 <= i < j < fv.len() ==> (#[trigger] fv[i]).0 != (#[trigger] fv[j]).0
}

/// Directory paths occur at most once.
pub open spec fn unique_dirs(dv: Seq<Seq<Seq<char>>>) -> bool {
    forall|i: int, j: int| 0 <= i < j < dv.len() ==> #[trigger] dv[i] != #[trigger] dv[j]
}

impl FsTree {
    /// The views of the tree's file records.
    pub open spec fn fv(&self) -> Seq<(Seq<Seq<char>>, u64)> {
        files_view(self.files@)
    }

    /// The views of the tree's directory paths.
    pub open spec fn dv(&self) -> Seq<Seq<Seq<char>>> {
        dirs_view(self.dirs@)
    }

    /// The file paths of the tree with their sizes.
    pub open spec fn file_map(&self) -> Map<Seq<Seq<char>>, u64> {
        files_map_of(self.fv())
    }

    /// The directory paths of the tree.
    pub open spec fn dir_set(&self) -> Set<Seq<Seq<char>>> {
        dirs_set_of(self.dv())
    }

    /// Paths occur at most once in each list.
    pub open spec fn wf(&self) -> bool {
        unique_paths(self.fv()) && unique_dirs(self.dv())
    }

    /// An empty tree.
    pub fn new() -> (r: Self)
        ensures
            r.file_map() == Map::<Seq<Seq<char>>, u64>::empty(),
            r.dir_set() == Set::<Seq<Seq<char>>>::empty(),
            r.fv() == Seq::<(Seq<Seq<char>>, u64)>::empty(),
            r.dv() == Seq::<Seq<Seq<char>>>::empty(),
            r.wf(),
    {
        let t = FsTree { files: Vec::new(), dirs: Vec::new() };
        proof {
            assert(t.fv() =~= Seq::<(Seq<Seq<char>>, u64)>::empty());
            assert(t.dv() =~= Seq::<Seq<Seq<char>>>::empty());
        }
        t
    }

    /// The size of the file at `path`, if the tree holds one.
    pub fn lookup_file(&self, path: &Vec<String>) -> (r: Option<u64>)
        requires
            self.wf(),
        ensures
            match r {
                Some(sz) => self.file_map().contains_key(path_view(path@)) && self.file_map()[
                    path_view(path@)] == sz,
                None => !self.file_map().contains_key(path_view(path@)),
            },
    {
        let mut i: usize = 0;
        while i < self.files.len()
            invariant
                self.wf(),
                0 <= i <= self.files@.len(),
                forall|t: int| 0 <= t < i ==> (#[trigger] self.fv()[t]).0 != path_view(path@),
            decreases self.files@.len() - i,
        {
            if path_eq(&self.files[i].path, path) {
                proof {
                    assert(self.fv()[i as int].0 == path_view(path@));
                    lemma_files_found(self.fv(), i as int);
                }
                return Some(self.files[i].size);
            }
            i += 1;
        }
        proof {
            lemma_files_not_found(self.fv(), path_view(path@));
        }
        None
    }

    /// Whether the tree holds a directory at `path`.
    pub fn has_dir(&self, path: &Vec<String>) -> (r: bool)
        ensures
            r == self.dir_set().contains(path_view(path@)),
    {
        let mut i: usize = 0;
        while i < self.dirs.len()
            invariant
                0 <= i <= self.dirs@.len(),
                forall|t: int| 0 <= t < i ==> #[trigger] self.dv()[t] != path_view(path@),
            decreases self.dirs@.len() - i,
        {
            if path_eq(&self.dirs[i], path) {
                proof {
                    assert(self.dv()[i as int] == path_view(path@));
                    lemma_dirs_found(self.dv(), i as int);
                }
                return true;
            }
            i += 1;
        }
        proof {
            lemma_dirs_not_found(self.dv(), path_view(path@));
        }
        false
    }
}

/// Two paths hold the same components.
pub fn path_eq(a: &Vec<String>, b: &Vec<String>) -> (r: bool)
    ensures
        r == (path_view(a@) == path_view(b@)),
{
    if a.len() != b.len() {
        proof {
            assert(path_view(a@).len() == a@.len());
            assert(path_view(b@).len() == b@.len());
        }
        return false;
    }
    let mut i: usize = 0;
    while i < a.len()
        invariant
            a@.len() == b@.len(),
            0 <= i <= a@.len(),
            forall|t: int| 0 <= t < i ==> #[trigger] a@[t]@ == b@[t]@,
        decreases a@.len() - i,
    {
        if !str_eq(a[i].as_str(), b[i].as_str()) {
            proof {
                assert(path_view(a@)[i as int] == a@[i as int]@);
                assert(path_view(b@)[i as int] == b@[i as int]@);
            }
            return false;
        }
        i += 1;
    }
    proof {
        assert(path_view(a@) =~= path_view(b@));
    }
    true
}

/// Copies a path; the copy has the same view.
pub fn clone_path(p: &Vec<String>) -> (r: Vec<String>)
    ensures
        path_view(r@) == path_view(p@),
        r@.len() == p@.len(),
{
    let mut out: Vec<String> = Vec::new();
    let mut i: usize = 0;
    while i < p.len()
        invariant
            0 <= i <= p@.len(),
            out@.len() == i,
            forall|t: int| 0 <= t < i ==> #[trigger] out@[t]@ == p@[t]@,
        decreases p@.len() - i,
    {
        out.push(p[i].clone());
        i += 1;
    }
    proof {
        assert(path_view(out@) =~= path_view(p@));
    }
    out
}

/// `pre` is a prefix of `p`.
pub open spec fn spec_starts_with(p: Seq<Seq<char>>, pre: Seq<Seq<char>>) -> bool {
    pre.len() <= p.len() && p.subrange(0, pre.len() as int) == pre
}

/// Whether the path `p` starts with the components of `pre`.
pub fn path_starts_with(p: &Vec<String>, pre: &Vec<String>) -> (r: bool)
    ensures
        r == spec_starts_with(path_view(p@), path_view(pre@)),
{
    if pre.len() > p.len() {
        proof {
            assert(path_view(p@).len() == p@.len());
            assert(path_view(pre@).len() == pre@.len());
        }
        return false;
    }
    let mut i: usize = 0;
    while i < pre.len()
        invariant
            pre@.len() <= p@.len(),
            0 <= i <= pre@.len(),
            forall|t: int| 0 <= t < i ==> #[trigger] p@[t]@ == pre@[t]@,
        decreases pre@.len() - i,
    {
        if !str_eq(p[i].as_str(), pre[i].as_str()) {
            proof {
                let w = path_view(p@).subrange(0, pre@.len() as int);
                assert(w[i as int] == p@[i as int]@);
                assert(path_view(pre@)[i as int] == pre@[i as int]@);
            }
            return false;
        }
        i += 1;
    }
    proof {
        assert(path_view(p@).subrange(0, pre@.len() as int) =~= path_view(pre@));
    }
    true
}


/// The view of a file list grows elementwise with a push.
pub proof fn lemma_files_view_push(s: Seq<FileRec>, x: FileRec)
    ensures
        files_view(s.push(x)) == files_view(s).push(file_view(x)),
{
    assert(files_view(s.push(x)) =~= files_view(s).push(file_view(x)));
}

/// The view of a directory list grows elementwise with a push.
pub proof fn lemma_dirs_view_push(s: Seq<Vec<String>>, x: Vec<String>)
    ensures
        dirs_view(s.push(x)) == dirs_view(s).push(path_view(x@)),
{
    assert(dirs_view(s.push(x)) =~= dirs_view(s).push(path_view(x@)));
}

/// A path bound nowhere in the list is absent from the map.
pub proof fn lemma_files_not_found(fv: Seq<(Seq<Seq<char>>, u64)>, path: Seq<Seq<char>>)
    requires
        forall|i: int| 0 <= i < fv.len() ==> (#[trigger] fv[i]).0 != path,
    ensures
        !files_map_of(fv).contains_key(path),
    decreases fv.len(),
{
    if fv.len() > 0 {
        lemma_files_not_found(fv.drop_last(), path);
    }
}

/// With unique paths, the record at `i` gives exactly the map's binding.
pub proof fn lemma_files_found(fv: Seq<(Seq<Seq<char>>, u64)>, i: int)
    requires
        0 <= i < fv.len(),
        unique_paths(fv),
    ensures
        files_map_of(fv).contains_key(fv[i].0),
        files_map_of(fv)[fv[i].0] == fv[i].1,
    decreases fv.len(),
{
    if i == fv.len() - 1 {
    } else {
        assert(unique_paths(fv.drop_last()));
        lemma_files_found(fv.drop_last(), i);
        assert(fv.last().0 != fv[i].0);
    }
}

/// A directory path not listed is outside the set.
pub proof fn lemma_dirs_not_found(dv: Seq<Seq<Seq<char>>>, path: Seq<Seq<char>>)
    requires
        forall|i: int| 0 <= i < dv.len() ==> #[trigger] dv[i] != path,
    ensures
        !dirs_set_of(dv).contains(path),
    decreases dv.len(),
{
    if dv.len() > 0 {
        lemma_dirs_not_found(dv.drop_last(), path);
    }
}

/// A listed directory path is inside the set.
pub proof fn lemma_dirs_found(dv: Seq<Seq<Seq<char>>>, i: int)
    requires
        0 <= i < dv.len(),
    ensures
        dirs_set_of(dv).contains(dv[i]),
    decreases dv.len(),
{
    if i < dv.len() - 1 {
        assert(dv.drop_last()[i] == dv[i]);
        lemma_dirs_found(dv.drop_last(), i);
    }
}

/// A path in a directory list's set is one of its members.
pub proof fn lemma_dirs_set_member(dv: Seq<Seq<Seq<char>>>, p: Seq<Seq<char>>)
    requires
        dirs_set_of(dv).contains(p),
    ensures
        exists|i: int| 0 <= i < dv.len() && #[trigger] dv[i] == p,
    decreases dv.len(),
{
    if dv.len() > 0 {
        if dv.last() == p {
            assert(dv[dv.len() - 1] == p);
        } else {
            lemma_dirs_set_member(dv.drop_last(), p);
            let i = choose|i: int| 0 <= i < dv.drop_last().len() && #[trigger] dv.drop_last()[i] == p;
            assert(dv[i] == p);
        }
    }
}

/// A path in a file list's map is carried by one of its records.
pub proof fn lemma_files_map_member(fv: Seq<(Seq<Seq<char>>, u64)>, p: Seq<Seq<char>>)
    requires
        files_map_of(fv).contains_key(p),
    ensures
        exists|i: int| 0 <= i < fv.len() && (#[trigger] fv[i]).0 == p,
    decreases fv.len(),
{
    if fv.len() > 0 {
        if fv.last().0 == p {
            assert(fv[fv.len() - 1].0 == p);
        } else {
            lemma_files_map_member(fv.drop_last(), p);
            let i = choose|i: int|
                0 <= i < fv.drop_last().len() && (#[trigger] fv.drop_last()[i]).0 == p;
            assert(fv[i].0 == p);
        }
    }
}

/// Concatenating file lists overlays the later list's map over the earlier.
pub proof fn lemma_files_map_concat(a: Seq<(Seq<Seq<char>>, u64)>, b: Seq<(Seq<Seq<char>>, u64)>)
    ensures
        files_map_of(a + b) == files_map_of(a).union_prefer_right(files_map_of(b)),
    decreases b.len(),
{
    if b.len() == 0 {
        assert(a + b =~= a);
        assert(files_map_of(a).union_prefer_right(Map::empty()) =~= files_map_of(a));
    } else {
        lemma_files_map_concat(a, b.drop_last());
        assert((a + b).drop_last() =~= a + b.drop_last());
        assert((a + b).last() == b.last());
        assert(files_map_of(a).union_prefer_right(
            files_map_of(b.drop_last()).insert(b.last().0, b.last().1),
        ) =~= files_map_of(a).union_prefer_right(files_map_of(b.drop_last())).insert(
            b.last().0,
            b.last().1,
        ));
    }
}

/// Concatenating directory lists unions their sets.
pub proof fn lemma_dirs_set_concat(a: Seq<Seq<Seq<char>>>, b: Seq<Seq<Seq<char>>>)
    ensures
        dirs_set_of(a + b) == dirs_set_of(a) + dirs_set_of(b),
    decreases b.len(),
{
    if b.len() == 0 {
        assert(a + b =~= a);
        assert(dirs_set_of(a) + Set::empty() =~= dirs_set_of(a));
    } else {
        lemma_dirs_set_concat(a, b.drop_last());
        assert((a + b).drop_last() =~= a + b.drop_last());
        assert((a + b).last() == b.last());
        assert(dirs_set_of(a) + dirs_set_of(b.drop_last()).insert(b.last()) =~= (dirs_set_of(a)
            + dirs_set_of(b.drop_last())).insert(b.last()));
    }
}

/// Copies a tree; the copy has the same views.
pub fn clone_tree(t: &FsTree) -> (r: FsTree)
    ensures
        r.fv() == t.fv(),
        r.dv() == t.dv(),
{
    let mut files: Vec<FileRec> = Vec::new();
    let mut i: usize = 0;
    while i < t.files.len()
        invariant
            0 <= i <= t.files@.len(),
            files_view(files@) == t.fv().subrange(0, i as int),
        decreases t.files@.len() - i,
    {
        let rec = FileRec { path: clone_path(&t.files[i].path), size: t.files[i].size };
        proof {
            assert(file_view(rec) == file_view(t.files@[i as int]));
            assert(t.fv()[i as int] == file_view(t.files@[i as int]));
        }
        let ghost before = files@;
        files.push(rec);
        proof {
            lemma_files_view_push(before, rec);
            assert(files_view(files@) =~= t.fv().subrange(0, i + 1));
        }
        i += 1;
    }
    let mut dirs: Vec<Vec<String>> = Vec::new();
    let mut j: usize = 0;
    while j < t.dirs.len()
        invariant
            0 <= j <= t.dirs@.len(),
            dirs_view(dirs@) == t.dv().subrange(0, j as int),
        decreases t.dirs@.len() - j,
    {
        let c = clone_path(&t.dirs[j]);
        proof {
            assert(t.dv()[j as int] == path_view(t.dirs@[j as int]@));
        }
        let ghost before = dirs@;
        dirs.push(c);
        proof {
            lemma_dirs_view_push(before, c);
            assert(dirs_view(dirs@) =~= t.dv().subrange(0, j + 1));
        }
        j += 1;
    }
    proof {
        assert(t.fv().subrange(0, t.fv().len() as int) =~= t.fv());
        assert(t.dv().subrange(0, t.dv().len() as int) =~= t.dv());
    }
    FsTree { files, dirs }
}

} // verus!
