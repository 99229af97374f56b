//! The directory mirror: a purely additive reconciliation of a source tree
//! into a destination tree. Files are copied only when the destination
//! lacks them or holds a different byte size; nothing is ever deleted.
use vstd::prelude::*;

use crate::fstree::{
    clone_path, dirs_set_of, file_view, files_map_of, files_view, lemma_dirs_found,
    lemma_dirs_set_member, lemma_files_found, path_view, unique_dirs, unique_paths, FileRec,
    FsTree,
};

verus! {

/// A file must be copied when the destination lacks its path or holds a
/// different size; equal size skips the copy (the accepted cheap heuristic).
pub open spec fn needs_copy(f: (Seq<Seq<char>>, u64), dst: Map<Seq<Seq<char>>, u64>) -> bool {
    !(dst.contains_key(f.0) && dst[f.0] == f.1)
}

/// The source files the mirror copies, in source order.
pub open spec fn spec_copies(
    fv: Seq<(Seq<Seq<char>>, u64)>,
    dst: Map<Seq<Seq<char>>, u64>,
) -> Seq<(Seq<Seq<char>>, u64)>
    decreases fv.len(),
{
    if fv.len() == 0 {
        Seq::empty()
    } else {
        let rest = spec_copies(fv.drop_last(), dst);
        if needs_copy(fv.last(), dst) {
            rest.push(fv.last())
        } else {
            rest
        }
    }
}

/// The source directories the mirror creates, in source order.
pub open spec fn spec_new_dirs(dv: Seq<Seq<Seq<char>>>, dst: Set<Seq<Seq<char>>>) -> Seq<
    Seq<Seq<char>>,
>
    decreases dv.len(),
{
    if dv.len() == 0 {
        Seq::empty()
    } else {
        let rest = spec_new_dirs(dv.drop_last(), dst);
        if !dst.contains(dv.last()) {
            rest.push(dv.last())
        } else {
            rest
        }
    }
}

/// The destination files whose paths the source does not hold.
pub open spec fn spec_kept_files(
    fv: Seq<(Seq<Seq<char>>, u64)>,
    src: Map<Seq<Seq<char>>, u64>,
) -> Seq<(Seq<Seq<char>>, u64)>
    decreases fv.len(),
{
    if fv.len() == 0 {
        Seq::empty()
    } else {
        let rest = spec_kept_files(fv.drop_last(), src);
        if !src.contains_key(fv.last().0) {
            rest.push(fv.last())
        } else {
            rest
        }
    }
}

/// Some record of `fv` carries the path `p`.
pub open spec fn has_path(fv: Seq<(Seq<Seq<char>>, u64)>, p: Seq<Seq<char>>) -> bool {
    exists|i: int| 0 <= i < fv.len() && (#[trigger] fv[i]).0 == p
}

/// What keeping only source-absent destination files does: paths stay a
/// subset, uniqueness is kept, the kept map is the old map without the
/// source's keys, and no kept path is a source path.
pub proof fn lemma_kept_files(fv: Seq<(Seq<Seq<char>>, u64)>, src: Map<Seq<Seq<char>>, u64>)
    requires
        unique_paths(fv),
    ensures
        unique_paths(spec_kept_files(fv, src)),
        forall|p: Seq<Seq<char>>|
            #[trigger] has_path(spec_kept_files(fv, src), p) ==> has_path(fv, p)
                && !src.contains_key(p),
        files_map_of(spec_kept_files(fv, src)) == files_map_of(fv).remove_keys(src.dom()),
    decreases fv.len(),
{
    let kept = spec_kept_files(fv, src);
    if fv.len() == 0 {
        assert(files_map_of(kept) =~= files_map_of(fv).remove_keys(src.dom()));
    } else {
        assert(unique_paths(fv.drop_last()));
        lemma_kept_files(fv.drop_last(), src);
        let inner = spec_kept_files(fv.drop_last(), src);
        let lastp = fv.last().0;
        assert forall|p: Seq<Seq<char>>| #[trigger] has_path(kept, p) implies has_path(fv, p)
            && !src.contains_key(p) by {
            let w = choose|w: int| 0 <= w < kept.len() && (#[trigger] kept[w]).0 == p;
            if !src.contains_key(lastp) && w == kept.len() - 1 {
                assert(fv[fv.len() - 1].0 == p);
            } else {
                assert(kept[w] == inner[w]);
                assert(has_path(inner, p));
                let v = choose|v: int|
                    0 <= v < fv.drop_last().len() && (#[trigger] fv.drop_last()[v]).0 == p;
                assert(fv[v].0 == p);
            }
        }
        if !src.contains_key(lastp) {
            assert forall|i: int, j: int| 0 <= i < j < kept.len() implies (#[trigger] kept[i]).0
                != (#[trigger] kept[j]).0 by {
                if j < kept.len() - 1 {
                    assert(kept[i] == inner[i] && kept[j] == inner[j]);
                } else {
                    assert(kept[i] == inner[i]);
                    assert(kept[j] == fv.last());
                    if inner[i].0 == lastp {
                        assert(has_path(inner, lastp));
                        let w = choose|w: int|
                            0 <= w < fv.drop_last().len() && (#[trigger] fv.drop_last()[w]).0
                                == lastp;
                        assert(fv[w].0 == fv[fv.len() - 1].0);
                        assert(false);
                    }
                }
            }
            assert(kept.drop_last() =~= inner);
            assert(kept.last() == fv.last());
            assert(files_map_of(kept) == files_map_of(inner).insert(lastp, fv.last().1));
            assert(files_map_of(kept) =~= files_map_of(fv).remove_keys(src.dom()));
        } else {
            assert(kept == inner);
            assert(files_map_of(fv) == files_map_of(fv.drop_last()).insert(lastp, fv.last().1));
            assert(files_map_of(kept) =~= files_map_of(fv).remove_keys(src.dom()));
        }
    }
}

/// Creating only destination-absent source directories keeps uniqueness and
/// adds exactly the missing set.
pub proof fn lemma_new_dirs(dv: Seq<Seq<Seq<char>>>, dst: Set<Seq<Seq<char>>>)
    requires
        unique_dirs(dv),
    ensures
        unique_dirs(spec_new_dirs(dv, dst)),
        dirs_set_of(spec_new_dirs(dv, dst)) == dirs_set_of(dv).difference(dst),
    decreases dv.len(),
{
    let new = spec_new_dirs(dv, dst);
    if dv.len() == 0 {
        assert(dirs_set_of(new) =~= dirs_set_of(dv).difference(dst));
    } else {
        assert(unique_dirs(dv.drop_last()));
        lemma_new_dirs(dv.drop_last(), dst);
        let inner = spec_new_dirs(dv.drop_last(), dst);
        let lastp = dv.last();
        if !dst.contains(lastp) {
            assert forall|i: int, j: int| 0 <= i < j < new.len() implies #[trigger] new[i]
                != #[trigger] new[j] by {
                if j < new.len() - 1 {
                    assert(new[i] == inner[i] && new[j] == inner[j]);
                } else {
                    assert(new[i] == inner[i]);
                    assert(new[j] == lastp);
                    if inner[i] == lastp {
                        assert(dirs_set_of(inner).contains(lastp)) by {
                            lemma_dirs_found(inner, i);
                        }
                        lemma_dirs_set_member(dv.drop_last(), lastp);
                        let w = choose|w: int|
                            0 <= w < dv.drop_last().len() && #[trigger] dv.drop_last()[w] == lastp;
                        assert(dv[w] == dv[dv.len() - 1]);
                        assert(false);
                    }
                }
            }
            assert(new.drop_last() =~= inner);
            assert(new.last() == lastp);
            assert(dirs_set_of(new) == dirs_set_of(inner).insert(lastp));
            assert(dirs_set_of(new) =~= dirs_set_of(dv).difference(dst));
        } else {
            assert(new == inner);
            assert(dirs_set_of(new) =~= dirs_set_of(dv).difference(dst));
        }
    }
}

/// What the mirror did: the reconciled tree, the files it copied and the
/// directories it created.
pub struct MirrorOutcome {
    pub tree: FsTree,
    pub copies: Vec<FileRec>,
    pub created: Vec<Vec<String>>,
}

/// Mirrors `src` into `dst` additively: afterwards every source file is
/// present with its source size, every source directory exists, and
/// everything else in the destination is untouched. The copied files are
/// exactly the source files absent from the destination or differing in
/// size; the created directories are exactly the source directories the
/// destination lacked.
pub fn mirror(src: &FsTree, dst: &FsTree) -> (r: MirrorOutcome)
    requires
        src.wf(),
        dst.wf(),
    ensures
        r.tree.wf(),
        r.tree.file_map() == dst.file_map().union_prefer_right(src.file_map()),
        r.tree.dir_set() == dst.dir_set() + src.dir_set(),
        r.tree.fv() == spec_kept_files(dst.fv(), src.file_map()) + src.fv(),
        r.tree.dv() == dst.dv() + spec_new_dirs(src.dv(), dst.dir_set()),
        files_view(r.copies@) == spec_copies(src.fv(), dst.file_map()),
        crate::fstree::dirs_view(r.created@) == spec_new_dirs(src.dv(), dst.dir_set()),
{
    // destination files whose paths the source does not hold
    let mut out_files: Vec<FileRec> = Vec::new();
    let mut i: usize = 0;
    while i < dst.files.len()
        invariant
            src.wf(),
            dst.wf(),
            0 <= i <= dst.files@.len(),
            files_view(out_files@) == spec_kept_files(dst.fv().subrange(0, i as int), src.file_map()),
        decreases dst.files@.len() - i,
    {
        let f = &dst.files[i];
        let keep = match src.lookup_file(&f.path) {
            Some(_) => false,
            None => true,
        };
        proof {
            let w = dst.fv().subrange(0, i + 1);
            assert(w.drop_last() =~= dst.fv().subrange(0, i as int));
            assert(w.last() == dst.fv()[i as int]);
            assert(dst.fv()[i as int] == file_view(dst.files@[i as int]));
        }
        if keep {
            let rec = FileRec { path: clone_path(&f.path), size: f.size };
            proof {
                assert(file_view(rec) == file_view(dst.files@[i as int]));
            }
            out_files.push(rec);
            proof {
                assert(files_view(out_files@) =~= spec_kept_files(
                    dst.fv().subrange(0, i + 1),
                    src.file_map(),
                ));
            }
        } else {
            proof {
                assert(files_view(out_files@) == spec_kept_files(
                    dst.fv().subrange(0, i + 1),
                    src.file_map(),
                ));
            }
        }
        i += 1;
    }
    proof {
        assert(dst.fv().subrange(0, dst.fv().len() as int) =~= dst.fv());
    }
    let ghost kept = files_view(out_files@);
    // then every source file, which wins on shared paths
    let mut copies: Vec<FileRec> = Vec::new();
    let mut j: usize = 0;
    while j < src.files.len()
        invariant
            src.wf(),
            dst.wf(),
            0 <= j <= src.files@.len(),
            files_view(out_files@) == kept + src.fv().subrange(0, j as int),
            files_view(copies@) == spec_copies(src.fv().subrange(0, j as int), dst.file_map()),
        decreases src.files@.len() - j,
    {
        let f = &src.files[j];
        let must_copy = match dst.lookup_file(&f.path) {
            Some(sz) => sz != f.size,
            None => true,
        };
        proof {
            let w = src.fv().subrange(0, j + 1);
            assert(w.drop_last() =~= src.fv().subrange(0, j as int));
            assert(w.last() == src.fv()[j as int]);
            assert(src.fv()[j as int] == file_view(src.files@[j as int]));
            assert(must_copy == needs_copy(src.fv()[j as int], dst.file_map()));
        }
        if must_copy {
            let crec = FileRec { path: clone_path(&f.path), size: f.size };
            proof {
                assert(file_view(crec) == file_view(src.files@[j as int]));
            }
            copies.push(crec);
            proof {
                assert(files_view(copies@) =~= spec_copies(
                    src.fv().subrange(0, j + 1),
                    dst.file_map(),
                ));
            }
        } else {
            proof {
                assert(files_view(copies@) == spec_copies(
                    src.fv().subrange(0, j + 1),
                    dst.file_map(),
                ));
            }
        }
        let rec = FileRec { path: clone_path(&f.path), size: f.size };
        proof {
            assert(file_view(rec) == file_view(src.files@[j as int]));
        }
        let ghost before_push = out_files@;
        out_files.push(rec);
        proof {
            crate::fstree::lemma_files_view_push(before_push, rec);
            assert(files_view(out_files@) =~= kept + src.fv().subrange(0, j + 1));
        }
        j += 1;
    }
    // all destination directories, then the source directories it lacked
    let mut out_dirs: Vec<Vec<String>> = Vec::new();
    let mut k: usize = 0;
    while k < dst.dirs.len()
        invariant
            0 <= k <= dst.dirs@.len(),
            crate::fstree::dirs_view(out_dirs@) == dst.dv().subrange(0, k as int),
        decreases dst.dirs@.len() - k,
    {
        let ghost before_push = out_dirs@;
        let d = clone_path(&dst.dirs[k]);
        out_dirs.push(d);
        proof {
            crate::fstree::lemma_dirs_view_push(before_push, d);
            assert(crate::fstree::dirs_view(out_dirs@) =~= dst.dv().subrange(0, k + 1));
        }
        k += 1;
    }
    proof {
        assert(dst.dv().subrange(0, dst.dv().len() as int) =~= dst.dv());
    }
    let mut created: Vec<Vec<String>> = Vec::new();
    let mut t: usize = 0;
    while t < src.dirs.len()
        invariant
            src.wf(),
            dst.wf(),
            0 <= t <= src.dirs@.len(),
            crate::fstree::dirs_view(out_dirs@) == dst.dv() + crate::fstree::dirs_view(created@),
            crate::fstree::dirs_view(created@) == spec_new_dirs(
                src.dv().subrange(0, t as int),
                dst.dir_set(),
            ),
        decreases src.dirs@.len() - t,
    {
        let d = &src.dirs[t];
        let present = dst.has_dir(d);
        proof {
            let w = src.dv().subrange(0, t + 1);
            assert(w.drop_last() =~= src.dv().subrange(0, t as int));
            assert(w.last() == src.dv()[t as int]);
            assert(src.dv()[t as int] == path_view(src.dirs@[t as int]@));
        }
        if !present {
            let ghost created_before = created@;
            let ghost out_before = out_dirs@;
            let c1 = clone_path(d);
            let c2 = clone_path(d);
            created.push(c1);
            out_dirs.push(c2);
            proof {
                crate::fstree::lemma_dirs_view_push(created_before, c1);
                crate::fstree::lemma_dirs_view_push(out_before, c2);
                assert(crate::fstree::dirs_view(created@) =~= spec_new_dirs(
                    src.dv().subrange(0, t + 1),
                    dst.dir_set(),
                ));
                assert(crate::fstree::dirs_view(out_dirs@) =~= dst.dv() + crate::fstree::dirs_view(
                    created@,
                ));
            }
        } else {
            proof {
                assert(crate::fstree::dirs_view(created@) == spec_new_dirs(
                    src.dv().subrange(0, t + 1),
                    dst.dir_set(),
                ));
            }
        }
        t += 1;
    }
    proof {
        assert(src.fv().subrange(0, src.fv().len() as int) =~= src.fv());
        assert(src.dv().subrange(0, src.dv().len() as int) =~= src.dv());
    }
    let tree = FsTree { files: out_files, dirs: out_dirs };
    proof {
        lemma_mirror_files(kept, src, dst);
        assert(tree.fv() == kept + src.fv());
        lemma_mirror_dirs(crate::fstree::dirs_view(created@), src, dst);
        assert(tree.dv() == dst.dv() + crate::fstree::dirs_view(created@));
    }
    MirrorOutcome { tree, copies, created }
}

/// The concatenation of the kept destination files and the source files
/// denotes exactly the overlay of the source map on the destination map,
/// with unique paths.
proof fn lemma_mirror_files(kept: Seq<(Seq<Seq<char>>, u64)>, src: &FsTree, dst: &FsTree)
    requires
        src.wf(),
        dst.wf(),
        kept == spec_kept_files(dst.fv(), src.file_map()),
    ensures
        files_map_of(kept + src.fv()) == dst.file_map().union_prefer_right(src.file_map()),
        unique_paths(kept + src.fv()),
{
    lemma_kept_files(dst.fv(), src.file_map());
    crate::fstree::lemma_files_map_concat(kept, src.fv());
    assert(files_map_of(kept + src.fv()) =~= dst.file_map().union_prefer_right(src.file_map()));
    let all = kept + src.fv();
    assert forall|i: int, j: int| 0 <= i < j < all.len() implies (#[trigger] all[i]).0
        != (#[trigger] all[j]).0 by {
        if j < kept.len() {
            assert(all[i] == kept[i] && all[j] == kept[j]);
        } else if i >= kept.len() {
            assert(all[i] == src.fv()[i - kept.len()] && all[j] == src.fv()[j - kept.len()]);
        } else {
            assert(all[i] == kept[i] && all[j] == src.fv()[j - kept.len()]);
            assert(has_path(kept, kept[i].0));
            lemma_files_found(src.fv(), j - kept.len());
        }
    }
}

/// The concatenation of the destination directories and the newly created
/// ones denotes exactly the union of the two sets, with unique paths.
proof fn lemma_mirror_dirs(created: Seq<Seq<Seq<char>>>, src: &FsTree, dst: &FsTree)
    requires
        src.wf(),
        dst.wf(),
        created == spec_new_dirs(src.dv(), dst.dir_set()),
    ensures
        dirs_set_of(dst.dv() + created) == dst.dir_set() + src.dir_set(),
        unique_dirs(dst.dv() + created),
{
    lemma_new_dirs(src.dv(), dst.dir_set());
    crate::fstree::lemma_dirs_set_concat(dst.dv(), created);
    assert(dirs_set_of(dst.dv() + created) =~= dst.dir_set() + src.dir_set());
    let all = dst.dv() + created;
    assert forall|i: int, j: int| 0 <= i < j < all.len() implies #[trigger] all[i]
        != #[trigger] all[j] by {
        if j < dst.dv().len() {
            assert(all[i] == dst.dv()[i] && all[j] == dst.dv()[j]);
        } else if i >= dst.dv().len() {
            assert(all[i] == created[i - dst.dv().len()] && all[j] == created[j - dst.dv().len()]);
        } else {
            assert(all[i] == dst.dv()[i] && all[j] == created[j - dst.dv().len()]);
            assert(dirs_set_of(created).contains(all[j])) by {
                lemma_dirs_found(created, j - dst.dv().len());
            }
            lemma_dirs_found(dst.dv(), i);
        }
    }
}

/// No record is copied when every source file already stands in the
/// destination with its source size.
pub proof fn lemma_copies_none(fv: Seq<(Seq<Seq<char>>, u64)>, m: Map<Seq<Seq<char>>, u64>)
    requires
        forall|i: int| 0 <= i < fv.len() ==> !needs_copy(#[trigger] fv[i], m),
    ensures
        spec_copies(fv, m) == Seq::<(Seq<Seq<char>>, u64)>::empty(),
    decreases fv.len(),
{
    if fv.len() > 0 {
        lemma_copies_none(fv.drop_last(), m);
    }
}

/// No directory is created when every source directory is already present.
pub proof fn lemma_new_dirs_none(dv: Seq<Seq<Seq<char>>>, s: Set<Seq<Seq<char>>>)
    requires
        forall|i: int| 0 <= i < dv.len() ==> s.contains(#[trigger] dv[i]),
    ensures
        spec_new_dirs(dv, s) == Seq::<Seq<Seq<char>>>::empty(),
    decreases dv.len(),
{
    if dv.len() > 0 {
        lemma_new_dirs_none(dv.drop_last(), s);
    }
}

/// Mirroring is idempotent: once a destination holds the source's overlay,
/// mirroring the same source again copies no file and creates no directory.
pub proof fn lemma_mirror_idempotent(
    src: FsTree,
    prior_files: Map<Seq<Seq<char>>, u64>,
    prior_dirs: Set<Seq<Seq<char>>>,
)
    requires
        src.wf(),
    ensures
        spec_copies(src.fv(), prior_files.union_prefer_right(src.file_map())) == Seq::<
            (Seq<Seq<char>>, u64),
        >::empty(),
        spec_new_dirs(src.dv(), prior_dirs + src.dir_set()) == Seq::<Seq<Seq<char>>>::empty(),
{
    let m = prior_files.union_prefer_right(src.file_map());
    assert forall|i: int| 0 <= i < src.fv().len() implies !needs_copy(#[trigger] src.fv()[i], m) by {
        lemma_files_found(src.fv(), i);
    }
    lemma_copies_none(src.fv(), m);
    let s = prior_dirs + src.dir_set();
    assert forall|i: int| 0 <= i < src.dv().len() implies s.contains(#[trigger] src.dv()[i]) by {
        lemma_dirs_found(src.dv(), i);
    }
    lemma_new_dirs_none(src.dv(), s);
}

} // verus!
