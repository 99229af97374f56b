//! The deployment synchronizer: reconciles a profile directory against a
//! game installation. It normalizes the bundled runtime-loader payload into
//! the profile root, deletes target mod folders that are disabled or
//! orphaned, mirrors the enabled part of the profile's runtime tree into the
//! target, and finally syncs the root-level loader files unconditionally.
use vstd::prelude::*;

use crate::fstree::{
    clone_path, dirs_set_of, dirs_view, file_view, files_map_of, files_view, lemma_dirs_found,
    lemma_files_found, lemma_files_not_found, path_starts_with,
    path_view, spec_starts_with, unique_dirs, unique_paths, FileRec, FsTree,
};
use crate::mirror::spec_copies;
use crate::text::{is_disabled, seq_views, spec_is_disabled, str_eq};

verus! {

/// The runtime directory name at the root of a profile and of a game.
pub open spec fn runtime_dir() -> Seq<char> {
    "BepInEx"@
}

/// The plugin area: where one folder per installed mod lives.
pub open spec fn plugins_prefix() -> Seq<Seq<char>> {
    seq![runtime_dir(), "plugins"@]
}

/// The marker file that identifies the bundled runtime-loader payload.
pub open spec fn marker_file() -> Seq<char> {
    "winhttp.dll"@
}

/// The root-level companion files of the runtime loader.
pub open spec fn companion_files() -> Seq<Seq<char>> {
    seq!["winhttp.dll"@, "doorstop_config.ini"@]
}

/// Builds the `["BepInEx", "plugins"]` path.
pub fn plugins_path() -> (r: Vec<String>)
    ensures
        path_view(r@) == plugins_prefix(),
{
    let mut p: Vec<String> = Vec::new();
    p.push(String::from_str("BepInEx"));
    p.push(String::from_str("plugins"));
    proof {
        assert(path_view(p@) =~= plugins_prefix());
    }
    p
}

/// The records of `fv` whose path satisfies `keep`, in order.
pub open spec fn spec_keep_files(
    fv: Seq<(Seq<Seq<char>>, u64)>,
    keep: spec_fn(Seq<Seq<char>>) -> bool,
) -> Seq<(Seq<Seq<char>>, u64)>
    decreases fv.len(),
{
    if fv.len() == 0 {
        Seq::empty()
    } else {
        let rest = spec_keep_files(fv.drop_last(), keep);
        if keep(fv.last().0) {
            rest.push(fv.last())
        } else {
            rest
        }
    }
}

/// The paths of `dv` that satisfy `keep`, in order.
pub open spec fn spec_keep_dirs(
    dv: Seq<Seq<Seq<char>>>,
    keep: spec_fn(Seq<Seq<char>>) -> bool,
) -> Seq<Seq<Seq<char>>>
    decreases dv.len(),
{
    if dv.len() == 0 {
        Seq::empty()
    } else {
        let rest = spec_keep_dirs(dv.drop_last(), keep);
        if keep(dv.last()) {
            rest.push(dv.last())
        } else {
            rest
        }
    }
}

/// Filtering a unique file list by a path predicate keeps uniqueness and
/// restricts the map to exactly the kept paths.
pub proof fn lemma_keep_files(fv: Seq<(Seq<Seq<char>>, u64)>, keep: spec_fn(Seq<Seq<char>>) -> bool)
    requires
        unique_paths(fv),
    ensures
        unique_paths(spec_keep_files(fv, keep)),
        forall|i: int|
            0 <= i < spec_keep_files(fv, keep).len() ==> keep(
                (#[trigger] spec_keep_files(fv, keep)[i]).0,
            ),
        files_map_of(spec_keep_files(fv, keep)) == files_map_of(fv).restrict(
            Set::new(|p: Seq<Seq<char>>| keep(p)),
        ),
    decreases fv.len(),
{
    let kept = spec_keep_files(fv, keep);
    if fv.len() == 0 {
        assert(files_map_of(kept) =~= files_map_of(fv).restrict(
            Set::new(|p: Seq<Seq<char>>| keep(p)),
        ));
    } else {
        assert(unique_paths(fv.drop_last()));
        lemma_keep_files(fv.drop_last(), keep);
        let inner = spec_keep_files(fv.drop_last(), keep);
        let lastp = fv.last().0;
        if keep(lastp) {
            assert forall|i: int, j: int| 0 <= i < j < kept.len() implies (#[trigger] kept[i]).0
                != (#[trigger] kept[j]).0 by {
                if j < kept.len() - 1 {
                    assert(kept[i] == inner[i] && kept[j] == inner[j]);
                } else {
                    assert(kept[i] == inner[i]);
                    assert(kept[j] == fv.last());
                    if inner[i].0 == lastp {
                        lemma_keep_member(fv.drop_last(), keep, i);
                        let w = choose|w: int|
                            0 <= w < fv.drop_last().len() && (#[trigger] fv.drop_last()[w]).0
                                == lastp;
                        assert(fv[w].0 == fv[fv.len() - 1].0);
                        assert(false);
                    }
                }
            }
            assert(kept.drop_last() =~= inner);
            assert(kept.last() == fv.last());
            assert(files_map_of(kept) == files_map_of(inner).insert(lastp, fv.last().1));
            assert(files_map_of(kept) =~= files_map_of(fv).restrict(
                Set::new(|p: Seq<Seq<char>>| keep(p)),
            ));
        } else {
            assert(kept == inner);
            // the dropped binding falls outside the restriction
            assert(files_map_of(fv) == files_map_of(fv.drop_last()).insert(lastp, fv.last().1));
            assert(files_map_of(kept) =~= files_map_of(fv).restrict(
                Set::new(|p: Seq<Seq<char>>| keep(p)),
            ));
        }
    }
}

/// A kept record's path is the path of some record of the original list.
pub proof fn lemma_keep_member(
    fv: Seq<(Seq<Seq<char>>, u64)>,
    keep: spec_fn(Seq<Seq<char>>) -> bool,
    i: int,
)
    requires
        0 <= i < spec_keep_files(fv, keep).len(),
    ensures
        exists|w: int|
            0 <= w < fv.len() && (#[trigger] fv[w]).0 == spec_keep_files(fv, keep)[i].0,
    decreases fv.len(),
{
    let kept = spec_keep_files(fv, keep);
    if fv.len() > 0 {
        let inner = spec_keep_files(fv.drop_last(), keep);
        if keep(fv.last().0) && i == kept.len() - 1 {
            assert(fv[fv.len() - 1].0 == kept[i].0);
        } else {
            assert(kept[i] == inner[i]);
            lemma_keep_member(fv.drop_last(), keep, i);
            let w = choose|w: int|
                0 <= w < fv.drop_last().len() && (#[trigger] fv.drop_last()[w]).0 == inner[i].0;
            assert(fv[w].0 == kept[i].0);
        }
    }
}

/// Filtering a unique directory list by a path predicate keeps uniqueness
/// and restricts the set to exactly the kept paths.
pub proof fn lemma_keep_dirs(dv: Seq<Seq<Seq<char>>>, keep: spec_fn(Seq<Seq<char>>) -> bool)
    requires
        unique_dirs(dv),
    ensures
        unique_dirs(spec_keep_dirs(dv, keep)),
        dirs_set_of(spec_keep_dirs(dv, keep)) == dirs_set_of(dv).intersect(
            Set::new(|p: Seq<Seq<char>>| keep(p)),
        ),
    decreases dv.len(),
{
    let kept = spec_keep_dirs(dv, keep);
    if dv.len() == 0 {
        assert(dirs_set_of(kept) =~= dirs_set_of(dv).intersect(
            Set::new(|p: Seq<Seq<char>>| keep(p)),
        ));
    } else {
        assert(unique_dirs(dv.drop_last()));
        lemma_keep_dirs(dv.drop_last(), keep);
        let inner = spec_keep_dirs(dv.drop_last(), keep);
        let lastp = dv.last();
        if keep(lastp) {
            assert forall|i: int, j: int| 0 <= i < j < kept.len() implies #[trigger] kept[i]
                != #[trigger] kept[j] by {
                if j < kept.len() - 1 {
                    assert(kept[i] == inner[i] && kept[j] == inner[j]);
                } else {
                    assert(kept[i] == inner[i]);
                    assert(kept[j] == lastp);
                    if inner[i] == lastp {
                        crate::fstree::lemma_dirs_found(inner, i);
                        crate::fstree::lemma_dirs_set_member(dv.drop_last(), lastp);
                        let w = choose|w: int|
                            0 <= w < dv.drop_last().len() && #[trigger] dv.drop_last()[w] == lastp;
                        assert(dv[w] == dv[dv.len() - 1]);
                        assert(false);
                    }
                }
            }
            assert(kept.drop_last() =~= inner);
            assert(kept.last() == lastp);
            assert(dirs_set_of(kept) == dirs_set_of(inner).insert(lastp));
            assert(dirs_set_of(kept) =~= dirs_set_of(dv).intersect(
                Set::new(|p: Seq<Seq<char>>| keep(p)),
            ));
        } else {
            assert(kept == inner);
            assert(dirs_set_of(kept) =~= dirs_set_of(dv).intersect(
                Set::new(|p: Seq<Seq<char>>| keep(p)),
            ));
        }
    }
}

/// A path names a mod folder: exactly `BepInEx/plugins/<name>`.
pub open spec fn is_mod_dir(p: Seq<Seq<char>>) -> bool {
    p.len() == 3 && p[0] == runtime_dir() && p[1] == "plugins"@
}

/// The enabled mod names: names of the mod folders of `dv` that do not
/// case-insensitively contain any disabled-name fragment, in order.
pub open spec fn spec_enabled_names(dv: Seq<Seq<Seq<char>>>, disabled: Seq<Seq<char>>) -> Seq<
    Seq<char>,
>
    decreases dv.len(),
{
    if dv.len() == 0 {
        Seq::empty()
    } else {
        let rest = spec_enabled_names(dv.drop_last(), disabled);
        if is_mod_dir(dv.last()) && !spec_is_disabled(dv.last()[2], disabled) {
            rest.push(dv.last()[2])
        } else {
            rest
        }
    }
}

/// Collects the names of the profile's enabled mod folders, in order.
pub fn enabled_mod_names(profile: &FsTree, disabled: &Vec<String>) -> (r: Vec<String>)
    ensures
        seq_views(r@) == spec_enabled_names(profile.dv(), seq_views(disabled@)),
{
    let mut out: Vec<String> = Vec::new();
    let mut i: usize = 0;
    while i < profile.dirs.len()
        invariant
            0 <= i <= profile.dirs@.len(),
            seq_views(out@) == spec_enabled_names(
                profile.dv().subrange(0, i as int),
                seq_views(disabled@),
            ),
        decreases profile.dirs@.len() - i,
    {
        let d = &profile.dirs[i];
        let ghost pref = profile.dv().subrange(0, i as int);
        let ghost cur = profile.dv().subrange(0, i + 1);
        proof {
            assert(cur.drop_last() =~= pref);
            assert(cur.last() == profile.dv()[i as int]);
            assert(profile.dv()[i as int] == path_view(profile.dirs@[i as int]@));
            assert(path_view(d@).len() == d@.len());
        }
        if d.len() == 3 && str_eq(d[0].as_str(), "BepInEx") && str_eq(d[1].as_str(), "plugins") {
            proof {
                assert(path_view(d@)[0] == d@[0]@);
                assert(path_view(d@)[1] == d@[1]@);
                assert(path_view(d@)[2] == d@[2]@);
                assert(is_mod_dir(path_view(d@)));
            }
            let name = &d[2];
            if !is_disabled(name.as_str(), disabled) {
                out.push(name.clone());
                proof {
                    assert(seq_views(out@) =~= spec_enabled_names(cur, seq_views(disabled@)));
                }
            } else {
                proof {
                    assert(seq_views(out@) == spec_enabled_names(cur, seq_views(disabled@)));
                }
            }
        } else {
            proof {
                if path_view(d@).len() == 3 {
                    assert(path_view(d@)[0] == d@[0]@);
                    assert(path_view(d@)[1] == d@[1]@);
                }
                assert(!(is_mod_dir(cur.last()) && !spec_is_disabled(
                    cur.last()[2],
                    seq_views(disabled@),
                )));
                assert(seq_views(out@) == spec_enabled_names(cur, seq_views(disabled@)));
            }
        }
        i += 1;
    }
    proof {
        assert(profile.dv().subrange(0, profile.dv().len() as int) =~= profile.dv());
    }
    out
}

/// A name list contains `n`.
pub open spec fn name_in(names: Seq<Seq<char>>, n: Seq<char>) -> bool {
    exists|i: int| 0 <= i < names.len() && #[trigger] names[i] == n
}

/// Whether `n` is one of `names`.
pub fn name_listed(names: &Vec<String>, n: &str) -> (r: bool)
    ensures
        r == name_in(seq_views(names@), n@),
{
    let mut i: usize = 0;
    while i < names.len()
        invariant
            0 <= i <= names@.len(),
            forall|t: int| 0 <= t < i ==> #[trigger] seq_views(names@)[t] != n@,
        decreases names@.len() - i,
    {
        if str_eq(names[i].as_str(), n) {
            proof {
                assert(seq_views(names@)[i as int] == n@);
            }
            return true;
        }
        i += 1;
    }
    false
}

/// The cleanup-survival predicate on file paths, for a given enabled set.
pub open spec fn cleanup_keep_file(enabled: Seq<Seq<char>>) -> (spec_fn(Seq<Seq<char>>) -> bool) {
    |p: Seq<Seq<char>>| survives_cleanup(p, enabled, false)
}

/// The cleanup-survival predicate on directory paths.
pub open spec fn cleanup_keep_dir(enabled: Seq<Seq<char>>) -> (spec_fn(Seq<Seq<char>>) -> bool) {
    |p: Seq<Seq<char>>| survives_cleanup(p, enabled, true)
}

/// The selective-copy predicate, for a given disabled list.
pub open spec fn copy_keep(disabled: Seq<Seq<char>>) -> (spec_fn(Seq<Seq<char>>) -> bool) {
    |p: Seq<Seq<char>>| selected_for_copy(p, disabled)
}

/// A target path survives the orphan/disabled cleanup: everything does,
/// except entries of the plugin area filed under a mod name that is not
/// enabled (the folder itself and everything below it; loose files directly
/// in the plugin area stay).
pub open spec fn survives_cleanup(p: Seq<Seq<char>>, enabled: Seq<Seq<char>>, is_dir: bool) -> bool {
    if p.len() >= 3 && p[0] == runtime_dir() && p[1] == "plugins"@ && (is_dir || p.len() > 3) {
        name_in(enabled, p[2])
    } else {
        true
    }
}

/// The names of the target's mod folders that the cleanup deletes: mod
/// folders whose name is not enabled, in order.
pub open spec fn spec_removed_names(dv: Seq<Seq<Seq<char>>>, enabled: Seq<Seq<char>>) -> Seq<
    Seq<char>,
>
    decreases dv.len(),
{
    if dv.len() == 0 {
        Seq::empty()
    } else {
        let rest = spec_removed_names(dv.drop_last(), enabled);
        if is_mod_dir(dv.last()) && !name_in(enabled, dv.last()[2]) {
            rest.push(dv.last()[2])
        } else {
            rest
        }
    }
}

/// Step two of a deployment run: deletes from the target every plugin
/// folder (with its contents) whose name is disabled or absent from the
/// enabled set; everything else in the target stays. Returns the cleaned
/// tree and the names of the folders that were deleted.
pub fn cleanup_target(target: &FsTree, enabled: &Vec<String>) -> (r: (FsTree, Vec<String>))
    requires
        target.wf(),
    ensures
        r.0.wf(),
        r.0.fv() == spec_keep_files(target.fv(), cleanup_keep_file(seq_views(enabled@))),
        r.0.dv() == spec_keep_dirs(target.dv(), cleanup_keep_dir(seq_views(enabled@))),
        r.0.file_map() == target.file_map().restrict(
            Set::new(cleanup_keep_file(seq_views(enabled@))),
        ),
        r.0.dir_set() == target.dir_set().intersect(
            Set::new(cleanup_keep_dir(seq_views(enabled@))),
        ),
        seq_views(r.1@) == spec_removed_names(target.dv(), seq_views(enabled@)),
{
    let ghost en = seq_views(enabled@);
    let ghost fkeep = cleanup_keep_file(seq_views(enabled@));
    let ghost dkeep = cleanup_keep_dir(seq_views(enabled@));
    let mut files: Vec<FileRec> = Vec::new();
    let mut i: usize = 0;
    while i < target.files.len()
        invariant
            target.wf(),
            en == seq_views(enabled@),
            fkeep == cleanup_keep_file(seq_views(enabled@)),
            0 <= i <= target.files@.len(),
            files_view(files@) == spec_keep_files(target.fv().subrange(0, i as int), fkeep),
        decreases target.files@.len() - i,
    {
        let f = &target.files[i];
        let ghost fp = path_view(f.path@);
        proof {
            let w = target.fv().subrange(0, i + 1);
            assert(w.drop_last() =~= target.fv().subrange(0, i as int));
            assert(w.last() == target.fv()[i as int]);
            assert(target.fv()[i as int] == file_view(target.files@[i as int]));
            assert(fp.len() == f.path@.len());
        }
        let survives = if f.path.len() >= 4 && str_eq(f.path[0].as_str(), "BepInEx") && str_eq(
            f.path[1].as_str(),
            "plugins",
        ) {
            proof {
                assert(fp[0] == f.path@[0]@);
                assert(fp[1] == f.path@[1]@);
                assert(fp[2] == f.path@[2]@);
            }
            name_listed(enabled, f.path[2].as_str())
        } else {
            proof {
                if fp.len() >= 3 && fp[0] == runtime_dir() && fp[1] == "plugins"@ && fp.len() > 3 {
                    assert(fp[0] == f.path@[0]@);
                    assert(fp[1] == f.path@[1]@);
                    assert(false);
                }
            }
            true
        };
        proof {
            assert(survives == fkeep(fp));
        }
        if survives {
            let rec = FileRec { path: clone_path(&f.path), size: f.size };
            proof {
                assert(file_view(rec) == file_view(target.files@[i as int]));
            }
            let ghost before = files@;
            files.push(rec);
            proof {
                crate::fstree::lemma_files_view_push(before, rec);
                assert(files_view(files@) =~= spec_keep_files(
                    target.fv().subrange(0, i + 1),
                    fkeep,
                ));
            }
        } else {
            proof {
                assert(files_view(files@) == spec_keep_files(target.fv().subrange(0, i + 1), fkeep));
            }
        }
        i += 1;
    }
    let mut dirs: Vec<Vec<String>> = Vec::new();
    let mut removed: Vec<String> = Vec::new();
    let mut j: usize = 0;
    while j < target.dirs.len()
        invariant
            target.wf(),
            en == seq_views(enabled@),
            dkeep == cleanup_keep_dir(seq_views(enabled@)),
            0 <= j <= target.dirs@.len(),
            dirs_view(dirs@) == spec_keep_dirs(target.dv().subrange(0, j as int), dkeep),
            seq_views(removed@) == spec_removed_names(target.dv().subrange(0, j as int), en),
        decreases target.dirs@.len() - j,
    {
        let d = &target.dirs[j];
        let ghost dp = path_view(d@);
        proof {
            let w = target.dv().subrange(0, j + 1);
            assert(w.drop_last() =~= target.dv().subrange(0, j as int));
            assert(w.last() == target.dv()[j as int]);
            assert(target.dv()[j as int] == path_view(target.dirs@[j as int]@));
            assert(dp.len() == d@.len());
        }
        let survives = if d.len() >= 3 && str_eq(d[0].as_str(), "BepInEx") && str_eq(
            d[1].as_str(),
            "plugins",
        ) {
            proof {
                assert(dp[0] == d@[0]@);
                assert(dp[1] == d@[1]@);
                assert(dp[2] == d@[2]@);
            }
            name_listed(enabled, d[2].as_str())
        } else {
            proof {
                if dp.len() >= 3 && dp[0] == runtime_dir() && dp[1] == "plugins"@ {
                    assert(dp[0] == d@[0]@);
                    assert(dp[1] == d@[1]@);
                    assert(false);
                }
            }
            true
        };
        proof {
            assert(survives == dkeep(dp));
        }
        if survives {
            let ghost before = dirs@;
            let c = clone_path(d);
            dirs.push(c);
            proof {
                crate::fstree::lemma_dirs_view_push(before, c);
                assert(dirs_view(dirs@) =~= spec_keep_dirs(target.dv().subrange(0, j + 1), dkeep));
                assert(seq_views(removed@) == spec_removed_names(
                    target.dv().subrange(0, j + 1),
                    en,
                ));
            }
        } else {
            if d.len() == 3 {
                removed.push(d[2].clone());
                proof {
                    assert(is_mod_dir(dp) && !name_in(en, dp[2]));
                    assert(seq_views(removed@) =~= spec_removed_names(
                        target.dv().subrange(0, j + 1),
                        en,
                    ));
                }
            } else {
                proof {
                    assert(!is_mod_dir(dp));
                    assert(seq_views(removed@) == spec_removed_names(
                        target.dv().subrange(0, j + 1),
                        en,
                    ));
                }
            }
            proof {
                assert(dirs_view(dirs@) == spec_keep_dirs(target.dv().subrange(0, j + 1), dkeep));
            }
        }
        j += 1;
    }
    proof {
        assert(target.fv().subrange(0, target.fv().len() as int) =~= target.fv());
        assert(target.dv().subrange(0, target.dv().len() as int) =~= target.dv());
        lemma_keep_files(target.fv(), fkeep);
        lemma_keep_dirs(target.dv(), dkeep);
    }
    (FsTree { files, dirs }, removed)
}

/// A profile path takes part in the selective copy: everything under the
/// runtime directory, except plugin-area entries filed under a name that
/// case-insensitively contains a disabled-name fragment.
pub open spec fn selected_for_copy(p: Seq<Seq<char>>, disabled: Seq<Seq<char>>) -> bool {
    p.len() >= 1 && p[0] == runtime_dir() && (p.len() < 3 || p[1] != "plugins"@
        || !spec_is_disabled(p[2], disabled))
}

/// Step three's source: the part of the profile that a deployment copies,
/// which is its runtime tree without the disabled plugin entries.
pub fn select_profile(profile: &FsTree, disabled: &Vec<String>) -> (r: FsTree)
    requires
        profile.wf(),
    ensures
        r.wf(),
        r.fv() == spec_keep_files(profile.fv(), copy_keep(seq_views(disabled@))),
        r.dv() == spec_keep_dirs(profile.dv(), copy_keep(seq_views(disabled@))),
        r.file_map() == profile.file_map().restrict(
            Set::new(copy_keep(seq_views(disabled@))),
        ),
        r.dir_set() == profile.dir_set().intersect(
            Set::new(copy_keep(seq_views(disabled@))),
        ),
{
    let ghost keep = copy_keep(seq_views(disabled@));
    let mut files: Vec<FileRec> = Vec::new();
    let mut i: usize = 0;
    while i < profile.files.len()
        invariant
            profile.wf(),
            keep == copy_keep(seq_views(disabled@)),
            0 <= i <= profile.files@.len(),
            files_view(files@) == spec_keep_files(profile.fv().subrange(0, i as int), keep),
        decreases profile.files@.len() - i,
    {
        let f = &profile.files[i];
        let ghost fp = path_view(f.path@);
        proof {
            let w = profile.fv().subrange(0, i + 1);
            assert(w.drop_last() =~= profile.fv().subrange(0, i as int));
            assert(w.last() == profile.fv()[i as int]);
            assert(profile.fv()[i as int] == file_view(profile.files@[i as int]));
            assert(fp.len() == f.path@.len());
            if fp.len() >= 1 {
                assert(fp[0] == f.path@[0]@);
            }
            if fp.len() >= 3 {
                assert(fp[1] == f.path@[1]@);
                assert(fp[2] == f.path@[2]@);
            }
        }
        let sel = if f.path.len() >= 1 && str_eq(f.path[0].as_str(), "BepInEx") {
            if f.path.len() >= 3 && str_eq(f.path[1].as_str(), "plugins") {
                !is_disabled(f.path[2].as_str(), disabled)
            } else {
                true
            }
        } else {
            false
        };
        proof {
            assert(sel == keep(fp));
        }
        if sel {
            let rec = FileRec { path: clone_path(&f.path), size: f.size };
            proof {
                assert(file_view(rec) == file_view(profile.files@[i as int]));
            }
            let ghost before = files@;
            files.push(rec);
            proof {
                crate::fstree::lemma_files_view_push(before, rec);
                assert(files_view(files@) =~= spec_keep_files(
                    profile.fv().subrange(0, i + 1),
                    keep,
                ));
            }
        } else {
            proof {
                assert(files_view(files@) == spec_keep_files(profile.fv().subrange(0, i + 1), keep));
            }
        }
        i += 1;
    }
    let mut dirs: Vec<Vec<String>> = Vec::new();
    let mut j: usize = 0;
    while j < profile.dirs.len()
        invariant
            profile.wf(),
            keep == copy_keep(seq_views(disabled@)),
            0 <= j <= profile.dirs@.len(),
            dirs_view(dirs@) == spec_keep_dirs(profile.dv().subrange(0, j as int), keep),
        decreases profile.dirs@.len() - j,
    {
        let d = &profile.dirs[j];
        let ghost dp = path_view(d@);
        proof {
            let w = profile.dv().subrange(0, j + 1);
            assert(w.drop_last() =~= profile.dv().subrange(0, j as int));
            assert(w.last() == profile.dv()[j as int]);
            assert(profile.dv()[j as int] == path_view(profile.dirs@[j as int]@));
            assert(dp.len() == d@.len());
            if dp.len() >= 1 {
                assert(dp[0] == d@[0]@);
            }
            if dp.len() >= 3 {
                assert(dp[1] == d@[1]@);
                assert(dp[2] == d@[2]@);
            }
        }
        let sel = if d.len() >= 1 && str_eq(d[0].as_str(), "BepInEx") {
            if d.len() >= 3 && str_eq(d[1].as_str(), "plugins") {
                !is_disabled(d[2].as_str(), disabled)
            } else {
                true
            }
        } else {
            false
        };
        proof {
            assert(sel == keep(dp));
        }
        if sel {
            let ghost before = dirs@;
            let c = clone_path(d);
            dirs.push(c);
            proof {
                crate::fstree::lemma_dirs_view_push(before, c);
                assert(dirs_view(dirs@) =~= spec_keep_dirs(profile.dv().subrange(0, j + 1), keep));
            }
        } else {
            proof {
                assert(dirs_view(dirs@) == spec_keep_dirs(profile.dv().subrange(0, j + 1), keep));
            }
        }
        j += 1;
    }
    proof {
        assert(profile.fv().subrange(0, profile.fv().len() as int) =~= profile.fv());
        assert(profile.dv().subrange(0, profile.dv().len() as int) =~= profile.dv());
        lemma_keep_files(profile.fv(), keep);
        lemma_keep_dirs(profile.dv(), keep);
    }
    FsTree { files, dirs }
}

/// The predicate holding of every path but `path`.
pub open spec fn other_path(path: Seq<Seq<char>>) -> (spec_fn(Seq<Seq<char>>) -> bool) {
    |p: Seq<Seq<char>>| p != path
}

/// The file list after an overwrite: records at other paths, then the new
/// record.
pub open spec fn spec_set_file(
    fv: Seq<(Seq<Seq<char>>, u64)>,
    path: Seq<Seq<char>>,
    size: u64,
) -> (Seq<(Seq<Seq<char>>, u64)>) {
    spec_keep_files(fv, other_path(path)).push((path, size))
}

/// Overwrites (or adds) the file at `path` with `new_size`; directories are
/// untouched. This is how the root-level loader files are synced: always,
/// regardless of what the target held.
pub fn put_root_file(tree: &FsTree, path: &Vec<String>, new_size: u64) -> (r: FsTree)
    requires
        tree.wf(),
    ensures
        r.wf(),
        r.file_map() == tree.file_map().insert(path_view(path@), new_size),
        r.dir_set() == tree.dir_set(),
        r.fv() == spec_set_file(tree.fv(), path_view(path@), new_size),
        r.dv() == tree.dv(),
{
    let ghost keep = other_path(path_view(path@));
    let mut files: Vec<FileRec> = Vec::new();
    let mut i: usize = 0;
    while i < tree.files.len()
        invariant
            tree.wf(),
            keep == other_path(path_view(path@)),
            0 <= i <= tree.files@.len(),
            files_view(files@) == spec_keep_files(tree.fv().subrange(0, i as int), keep),
        decreases tree.files@.len() - i,
    {
        let f = &tree.files[i];
        proof {
            let w = tree.fv().subrange(0, i + 1);
            assert(w.drop_last() =~= tree.fv().subrange(0, i as int));
            assert(w.last() == tree.fv()[i as int]);
            assert(tree.fv()[i as int] == file_view(tree.files@[i as int]));
        }
        let same = crate::fstree::path_eq(&f.path, path);
        proof {
            assert((!same) == keep(path_view(f.path@)));
        }
        if !same {
            let rec = FileRec { path: clone_path(&f.path), size: f.size };
            proof {
                assert(file_view(rec) == file_view(tree.files@[i as int]));
            }
            let ghost before = files@;
            files.push(rec);
            proof {
                crate::fstree::lemma_files_view_push(before, rec);
                assert(files_view(files@) =~= spec_keep_files(tree.fv().subrange(0, i + 1), keep));
            }
        } else {
            proof {
                assert(files_view(files@) == spec_keep_files(tree.fv().subrange(0, i + 1), keep));
            }
        }
        i += 1;
    }
    let rec = FileRec { path: clone_path(path), size: new_size };
    let ghost before = files@;
    files.push(rec);
    let mut dirs: Vec<Vec<String>> = Vec::new();
    let mut j: usize = 0;
    while j < tree.dirs.len()
        invariant
            0 <= j <= tree.dirs@.len(),
            dirs_view(dirs@) == tree.dv().subrange(0, j as int),
        decreases tree.dirs@.len() - j,
    {
        let ghost dbefore = dirs@;
        let c = clone_path(&tree.dirs[j]);
        dirs.push(c);
        proof {
            crate::fstree::lemma_dirs_view_push(dbefore, c);
            assert(dirs_view(dirs@) =~= tree.dv().subrange(0, j + 1));
        }
        j += 1;
    }
    let r = FsTree { files, dirs };
    proof {
        assert(tree.fv().subrange(0, tree.fv().len() as int) =~= tree.fv());
        assert(tree.dv().subrange(0, tree.dv().len() as int) =~= tree.dv());
        crate::fstree::lemma_files_view_push(before, rec);
        assert(file_view(rec) == (path_view(path@), new_size));
        lemma_keep_files(tree.fv(), keep);
        let kept = spec_keep_files(tree.fv(), keep);
        assert(r.fv() == kept.push((path_view(path@), new_size)));
        assert forall|a: int, b: int| 0 <= a < b < r.fv().len() implies (#[trigger] r.fv()[a]).0
            != (#[trigger] r.fv()[b]).0 by {
            if b < r.fv().len() - 1 {
                assert(r.fv()[a] == kept[a] && r.fv()[b] == kept[b]);
            } else {
                assert(r.fv()[a] == kept[a]);
                assert(keep(kept[a].0));
            }
        }
        assert(r.dv() =~= tree.dv());
        assert(r.fv().drop_last() =~= kept);
        assert(r.fv().last() == (path_view(path@), new_size));
        assert(files_map_of(r.fv()) == files_map_of(kept).insert(path_view(path@), new_size));
        assert(files_map_of(r.fv()) =~= tree.file_map().insert(path_view(path@), new_size));
    }
    r
}

/// A directory holds the bundled loader payload: it sits in the plugin
/// area, at most two levels below it, and holds the marker file.
pub open spec fn is_pack_dir(d: Seq<Seq<char>>, fm: Map<Seq<Seq<char>>, u64>) -> bool {
    spec_starts_with(d, plugins_prefix()) && (d.len() == 3 || d.len() == 4) && fm.contains_key(
        d.push(marker_file()),
    )
}

/// The first payload directory from position `i` on, scanning forward.
pub open spec fn spec_find_pack(
    dv: Seq<Seq<Seq<char>>>,
    fm: Map<Seq<Seq<char>>, u64>,
    i: int,
) -> (Option<Seq<Seq<char>>>)
    decreases dv.len() - i,
{
    if i < 0 || i >= dv.len() {
        None
    } else if is_pack_dir(dv[i], fm) {
        Some(dv[i])
    } else {
        spec_find_pack(dv, fm, i + 1)
    }
}

/// Finds the bundled loader payload in the profile's plugin area, if any.
pub fn find_loader_payload(profile: &FsTree) -> (r: Option<Vec<String>>)
    requires
        profile.wf(),
    ensures
        match r {
            Some(p) => spec_find_pack(profile.dv(), profile.file_map(), 0) == Some(path_view(p@)),
            None => spec_find_pack(profile.dv(), profile.file_map(), 0) is None,
        },
{
    let plugins = plugins_path();
    let mut i: usize = 0;
    while i < profile.dirs.len()
        invariant
            profile.wf(),
            path_view(plugins@) == plugins_prefix(),
            0 <= i <= profile.dirs@.len(),
            spec_find_pack(profile.dv(), profile.file_map(), 0) == spec_find_pack(
                profile.dv(),
                profile.file_map(),
                i as int,
            ),
        decreases profile.dirs@.len() - i,
    {
        let d = &profile.dirs[i];
        let ghost dp = path_view(d@);
        proof {
            assert(profile.dv()[i as int] == path_view(profile.dirs@[i as int]@));
            assert(dp.len() == d@.len());
        }
        if (d.len() == 3 || d.len() == 4) && path_starts_with(d, &plugins) {
            let mut probe = clone_path(d);
            probe.push(String::from_str("winhttp.dll"));
            proof {
                assert(path_view(probe@) =~= dp.push(marker_file()));
            }
            if let Some(_) = profile.lookup_file(&probe) {
                proof {
                    assert(is_pack_dir(dp, profile.file_map()));
                }
                return Some(clone_path(d));
            }
            proof {
                assert(!is_pack_dir(dp, profile.file_map()));
            }
        } else {
            proof {
                assert(!is_pack_dir(dp, profile.file_map()));
            }
        }
        i += 1;
    }
    None
}

/// The payload's runtime files, rebased to the profile root: files under
/// `<pack>/BepInEx/...` become `BepInEx/...`.
pub open spec fn spec_rebase_files(
    fv: Seq<(Seq<Seq<char>>, u64)>,
    pack: Seq<Seq<char>>,
) -> (Seq<(Seq<Seq<char>>, u64)>)
    decreases fv.len(),
{
    if fv.len() == 0 {
        Seq::empty()
    } else {
        let rest = spec_rebase_files(fv.drop_last(), pack);
        if spec_starts_with(fv.last().0, pack.push(runtime_dir())) {
            rest.push((fv.last().0.skip(pack.len() as int), fv.last().1))
        } else {
            rest
        }
    }
}

/// The payload's runtime directories, rebased to the profile root.
pub open spec fn spec_rebase_dirs(dv: Seq<Seq<Seq<char>>>, pack: Seq<Seq<char>>) -> (Seq<
    Seq<Seq<char>>,
>)
    decreases dv.len(),
{
    if dv.len() == 0 {
        Seq::empty()
    } else {
        let rest = spec_rebase_dirs(dv.drop_last(), pack);
        if spec_starts_with(dv.last(), pack.push(runtime_dir())) {
            rest.push(dv.last().skip(pack.len() as int))
        } else {
            rest
        }
    }
}

/// Rebasing keeps paths unique: the dropped prefix is the same for all.
proof fn lemma_rebase_files_unique(fv: Seq<(Seq<Seq<char>>, u64)>, pack: Seq<Seq<char>>)
    requires
        unique_paths(fv),
    ensures
        unique_paths(spec_rebase_files(fv, pack)),
    decreases fv.len(),
{
    let reb = spec_rebase_files(fv, pack);
    if fv.len() > 0 {
        assert(unique_paths(fv.drop_last()));
        lemma_rebase_files_unique(fv.drop_last(), pack);
        let inner = spec_rebase_files(fv.drop_last(), pack);
        if spec_starts_with(fv.last().0, pack.push(runtime_dir())) {
            assert forall|i: int, j: int| 0 <= i < j < reb.len() implies (#[trigger] reb[i]).0
                != (#[trigger] reb[j]).0 by {
                if j < reb.len() - 1 {
                    assert(reb[i] == inner[i] && reb[j] == inner[j]);
                } else {
                    assert(reb[i] == inner[i]);
                    lemma_rebase_member(fv.drop_last(), pack, i);
                    let w = choose|w: int|
                        0 <= w < fv.drop_last().len() && spec_starts_with(
                            (#[trigger] fv.drop_last()[w]).0,
                            pack.push(runtime_dir()),
                        ) && fv.drop_last()[w].0.skip(pack.len() as int) == inner[i].0;
                    if reb[i].0 == reb[j].0 {
                        lemma_skip_injective(fv[w].0, fv[fv.len() - 1].0, pack);
                        assert(fv[w].0 == fv[fv.len() - 1].0);
                        assert(false);
                    }
                }
            }
        } else {
            assert(reb == inner);
        }
    }
}

/// A rebased record comes from a record under the payload's runtime tree,
/// keeping its size.
proof fn lemma_rebase_member(fv: Seq<(Seq<Seq<char>>, u64)>, pack: Seq<Seq<char>>, i: int)
    requires
        0 <= i < spec_rebase_files(fv, pack).len(),
    ensures
        exists|w: int|
            0 <= w < fv.len() && spec_starts_with(
                (#[trigger] fv[w]).0,
                pack.push(runtime_dir()),
            ) && fv[w].0.skip(pack.len() as int) == spec_rebase_files(fv, pack)[i].0 && fv[w].1
                == spec_rebase_files(fv, pack)[i].1,
    decreases fv.len(),
{
    let reb = spec_rebase_files(fv, pack);
    if fv.len() > 0 {
        let inner = spec_rebase_files(fv.drop_last(), pack);
        if spec_starts_with(fv.last().0, pack.push(runtime_dir())) && i == reb.len() - 1 {
            assert(0 <= fv.len() - 1 < fv.len() && spec_starts_with(
                (fv[fv.len() - 1]).0,
                pack.push(runtime_dir()),
            ) && fv[fv.len() - 1].0.skip(pack.len() as int) == reb[i].0 && fv[fv.len() - 1].1
                == reb[i].1);
        } else {
            assert(reb[i] == inner[i]);
            lemma_rebase_member(fv.drop_last(), pack, i);
            let w = choose|w: int|
                0 <= w < fv.drop_last().len() && spec_starts_with(
                    (#[trigger] fv.drop_last()[w]).0,
                    pack.push(runtime_dir()),
                ) && fv.drop_last()[w].0.skip(pack.len() as int) == inner[i].0 && fv.drop_last()[
                w].1 == inner[i].1;
            assert(0 <= w < fv.len() && spec_starts_with((fv[w]).0, pack.push(runtime_dir()))
                && fv[w].0.skip(pack.len() as int) == reb[i].0 && fv[w].1 == reb[i].1);
        }
    }
}

/// Two paths that share the prefix below which they were rebased are equal
/// when their rebased forms are.
proof fn lemma_skip_injective(a: Seq<Seq<char>>, b: Seq<Seq<char>>, pack: Seq<Seq<char>>)
    requires
        spec_starts_with(a, pack.push(runtime_dir())),
        spec_starts_with(b, pack.push(runtime_dir())),
        a.skip(pack.len() as int) == b.skip(pack.len() as int),
    ensures
        a == b,
{
    let k = pack.len() as int;
    assert(a.subrange(0, k + 1) == pack.push(runtime_dir()));
    assert(b.subrange(0, k + 1) == pack.push(runtime_dir()));
    assert(a.len() == k + a.skip(k).len());
    assert(b.len() == k + b.skip(k).len());
    assert(a.len() == b.len());
    assert forall|t: int| 0 <= t < a.len() implies a[t] == b[t] by {
        if t < k {
            assert(a.subrange(0, k + 1)[t] == a[t]);
            assert(b.subrange(0, k + 1)[t] == b[t]);
        } else {
            assert(a.skip(k)[t - k] == a[t]);
            assert(b.skip(k)[t - k] == b[t]);
        }
    }
    assert(a =~= b);
}

/// Builds the tree of the payload's runtime files and directories, rebased
/// to the profile root.
pub fn rebase_pack(profile: &FsTree, pack: &Vec<String>) -> (r: FsTree)
    requires
        profile.wf(),
    ensures
        r.wf(),
        r.fv() == spec_rebase_files(profile.fv(), path_view(pack@)),
        r.dv() == spec_rebase_dirs(profile.dv(), path_view(pack@)),
{
    let ghost packv = path_view(pack@);
    let mut pack_bep = clone_path(pack);
    pack_bep.push(String::from_str("BepInEx"));
    proof {
        assert(path_view(pack_bep@) =~= packv.push(runtime_dir()));
    }
    let mut files: Vec<FileRec> = Vec::new();
    let mut i: usize = 0;
    while i < profile.files.len()
        invariant
            profile.wf(),
            packv == path_view(pack@),
            path_view(pack_bep@) == packv.push(runtime_dir()),
            pack_bep@.len() == pack@.len() + 1,
            0 <= i <= profile.files@.len(),
            files_view(files@) == spec_rebase_files(profile.fv().subrange(0, i as int), packv),
        decreases profile.files@.len() - i,
    {
        let f = &profile.files[i];
        proof {
            let w = profile.fv().subrange(0, i + 1);
            assert(w.drop_last() =~= profile.fv().subrange(0, i as int));
            assert(w.last() == profile.fv()[i as int]);
            assert(profile.fv()[i as int] == file_view(profile.files@[i as int]));
        }
        if path_starts_with(&f.path, &pack_bep) {
            let mut sub: Vec<String> = Vec::new();
            let mut t: usize = pack.len();
            proof {
                assert(path_view(f.path@).len() == f.path@.len());
                assert(packv.len() == pack@.len());
            }
            while t < f.path.len()
                invariant
                    pack@.len() <= t <= f.path@.len(),
                    packv.len() == pack@.len(),
                    sub@.len() == t - pack@.len(),
                    forall|u: int|
                        0 <= u < sub@.len() ==> #[trigger] sub@[u]@ == f.path@[pack@.len() + u]@,
                decreases f.path@.len() - t,
            {
                sub.push(f.path[t].clone());
                t += 1;
            }
            let rec = FileRec { path: sub, size: f.size };
            proof {
                assert(path_view(rec.path@) =~= path_view(f.path@).skip(packv.len() as int));
                assert(file_view(rec) == (
                    path_view(f.path@).skip(packv.len() as int),
                    f.size,
                ));
            }
            let ghost before = files@;
            files.push(rec);
            proof {
                crate::fstree::lemma_files_view_push(before, rec);
                assert(files_view(files@) =~= spec_rebase_files(
                    profile.fv().subrange(0, i + 1),
                    packv,
                ));
            }
        } else {
            proof {
                assert(files_view(files@) == spec_rebase_files(
                    profile.fv().subrange(0, i + 1),
                    packv,
                ));
            }
        }
        i += 1;
    }
    let mut dirs: Vec<Vec<String>> = Vec::new();
    let mut j: usize = 0;
    while j < profile.dirs.len()
        invariant
            profile.wf(),
            packv == path_view(pack@),
            path_view(pack_bep@) == packv.push(runtime_dir()),
            pack_bep@.len() == pack@.len() + 1,
            0 <= j <= profile.dirs@.len(),
            dirs_view(dirs@) == spec_rebase_dirs(profile.dv().subrange(0, j as int), packv),
        decreases profile.dirs@.len() - j,
    {
        let d = &profile.dirs[j];
        proof {
            let w = profile.dv().subrange(0, j + 1);
            assert(w.drop_last() =~= profile.dv().subrange(0, j as int));
            assert(w.last() == profile.dv()[j as int]);
            assert(profile.dv()[j as int] == path_view(profile.dirs@[j as int]@));
        }
        if path_starts_with(d, &pack_bep) {
            let mut sub: Vec<String> = Vec::new();
            let mut t: usize = pack.len();
            proof {
                assert(path_view(d@).len() == d@.len());
                assert(packv.len() == pack@.len());
            }
            while t < d.len()
                invariant
                    pack@.len() <= t <= d@.len(),
                    packv.len() == pack@.len(),
                    sub@.len() == t - pack@.len(),
                    forall|u: int|
                        0 <= u < sub@.len() ==> #[trigger] sub@[u]@ == d@[pack@.len() + u]@,
                decreases d@.len() - t,
            {
                sub.push(d[t].clone());
                t += 1;
            }
            proof {
                assert(path_view(sub@) =~= path_view(d@).skip(packv.len() as int));
            }
            let ghost before = dirs@;
            dirs.push(sub);
            proof {
                crate::fstree::lemma_dirs_view_push(before, sub);
                assert(dirs_view(dirs@) =~= spec_rebase_dirs(
                    profile.dv().subrange(0, j + 1),
                    packv,
                ));
            }
        } else {
            proof {
                assert(dirs_view(dirs@) == spec_rebase_dirs(profile.dv().subrange(0, j + 1), packv));
            }
        }
        j += 1;
    }
    let r = FsTree { files, dirs };
    proof {
        assert(profile.fv().subrange(0, profile.fv().len() as int) =~= profile.fv());
        assert(profile.dv().subrange(0, profile.dv().len() as int) =~= profile.dv());
        lemma_rebase_files_unique(profile.fv(), packv);
        lemma_rebase_dirs_unique(profile.dv(), packv);
    }
    r
}

/// Rebasing keeps directory paths unique.
proof fn lemma_rebase_dirs_unique(dv: Seq<Seq<Seq<char>>>, pack: Seq<Seq<char>>)
    requires
        unique_dirs(dv),
    ensures
        unique_dirs(spec_rebase_dirs(dv, pack)),
    decreases dv.len(),
{
    let reb = spec_rebase_dirs(dv, pack);
    if dv.len() > 0 {
        assert(unique_dirs(dv.drop_last()));
        lemma_rebase_dirs_unique(dv.drop_last(), pack);
        let inner = spec_rebase_dirs(dv.drop_last(), pack);
        if spec_starts_with(dv.last(), pack.push(runtime_dir())) {
            assert forall|i: int, j: int| 0 <= i < j < reb.len() implies #[trigger] reb[i]
                != #[trigger] reb[j] by {
                if j < reb.len() - 1 {
                    assert(reb[i] == inner[i] && reb[j] == inner[j]);
                } else {
                    assert(reb[i] == inner[i]);
                    lemma_rebase_dirs_member(dv.drop_last(), pack, i);
                    let w = choose|w: int|
                        0 <= w < dv.drop_last().len() && spec_starts_with(
                            #[trigger] dv.drop_last()[w],
                            pack.push(runtime_dir()),
                        ) && dv.drop_last()[w].skip(pack.len() as int) == inner[i];
                    if reb[i] == reb[j] {
                        lemma_skip_injective_dirs(dv[w], dv[dv.len() - 1], pack);
                        assert(dv[w] == dv[dv.len() - 1]);
                        assert(false);
                    }
                }
            }
        } else {
            assert(reb == inner);
        }
    }
}

/// A rebased directory comes from one under the payload's runtime tree.
proof fn lemma_rebase_dirs_member(dv: Seq<Seq<Seq<char>>>, pack: Seq<Seq<char>>, i: int)
    requires
        0 <= i < spec_rebase_dirs(dv, pack).len(),
    ensures
        exists|w: int|
            0 <= w < dv.len() && spec_starts_with(#[trigger] dv[w], pack.push(runtime_dir()))
                && dv[w].skip(pack.len() as int) == spec_rebase_dirs(dv, pack)[i],
    decreases dv.len(),
{
    let reb = spec_rebase_dirs(dv, pack);
    if dv.len() > 0 {
        let inner = spec_rebase_dirs(dv.drop_last(), pack);
        if spec_starts_with(dv.last(), pack.push(runtime_dir())) && i == reb.len() - 1 {
            assert(0 <= dv.len() - 1 < dv.len() && spec_starts_with(
                dv[dv.len() - 1],
                pack.push(runtime_dir()),
            ) && dv[dv.len() - 1].skip(pack.len() as int) == reb[i]);
        } else {
            assert(reb[i] == inner[i]);
            lemma_rebase_dirs_member(dv.drop_last(), pack, i);
            let w = choose|w: int|
                0 <= w < dv.drop_last().len() && spec_starts_with(
                    #[trigger] dv.drop_last()[w],
                    pack.push(runtime_dir()),
                ) && dv.drop_last()[w].skip(pack.len() as int) == inner[i];
            assert(0 <= w < dv.len() && spec_starts_with(dv[w], pack.push(runtime_dir())) && dv[
                w].skip(pack.len() as int) == reb[i]);
        }
    }
}

/// Rebased directory paths determine the original.
proof fn lemma_skip_injective_dirs(a: Seq<Seq<char>>, b: Seq<Seq<char>>, pack: Seq<Seq<char>>)
    requires
        spec_starts_with(a, pack.push(runtime_dir())),
        spec_starts_with(b, pack.push(runtime_dir())),
        a.skip(pack.len() as int) == b.skip(pack.len() as int),
    ensures
        a == b,
{
    lemma_skip_injective(a, b, pack);
}

/// The root-level companion files that normalization adds: each companion
/// the payload holds and the profile root lacks, with its payload size,
/// loader shim first.
pub open spec fn spec_companion_adds(fm: Map<Seq<Seq<char>>, u64>, pack: Seq<Seq<char>>) -> (Seq<
    (Seq<Seq<char>>, u64),
>) {
    let w = "winhttp.dll"@;
    let d = "doorstop_config.ini"@;
    (if fm.contains_key(pack.push(w)) && !fm.contains_key(seq![w]) {
        seq![(seq![w], fm[pack.push(w)])]
    } else {
        Seq::empty()
    }) + (if fm.contains_key(pack.push(d)) && !fm.contains_key(seq![d]) {
        seq![(seq![d], fm[pack.push(d)])]
    } else {
        Seq::empty()
    })
}

/// What payload normalization did: the adjusted profile tree, the payload
/// directory it found, and the file copies it performed (paths are profile
/// root relative; each was copied from the same path below the payload
/// directory).
pub struct NormalizeOutcome {
    pub tree: FsTree,
    pub pack: Option<Vec<String>>,
    pub copies: Vec<FileRec>,
}

/// Step one of a deployment run: finds the bundled loader payload in the
/// plugin area; copies its root-level companion files to the profile root
/// where absent; and additively merges its runtime subtree into the
/// profile's runtime subtree. Without a payload the profile is unchanged.
pub fn normalize_payload(profile: &FsTree) -> (r: NormalizeOutcome)
    requires
        profile.wf(),
    ensures
        r.tree.wf(),
        (match spec_find_pack(profile.dv(), profile.file_map(), 0) {
            None => r.tree.fv() == profile.fv() && r.tree.dv() == profile.dv() && r.pack is None
                && r.copies@.len() == 0,
            Some(packv) => (match r.pack {
                Some(pp) => path_view(pp@) == packv && r.tree.file_map() == profile.file_map(
                ).union_prefer_right(
                    files_map_of(spec_companion_adds(profile.file_map(), packv)),
                ).union_prefer_right(
                    files_map_of(spec_rebase_files(profile.fv(), packv)),
                ) && r.tree.dir_set() == profile.dir_set() + dirs_set_of(
                    spec_rebase_dirs(profile.dv(), packv),
                ) && r.tree.fv() == crate::mirror::spec_kept_files(
                    profile.fv() + spec_companion_adds(profile.file_map(), packv),
                    files_map_of(spec_rebase_files(profile.fv(), packv)),
                ) + spec_rebase_files(profile.fv(), packv) && r.tree.dv() == profile.dv()
                    + crate::mirror::spec_new_dirs(
                    spec_rebase_dirs(profile.dv(), packv),
                    profile.dir_set(),
                ) && files_view(r.copies@) == spec_companion_adds(profile.file_map(), packv)
                    + spec_copies(
                    spec_rebase_files(profile.fv(), packv),
                    profile.file_map().union_prefer_right(
                        files_map_of(spec_companion_adds(profile.file_map(), packv)),
                    ),
                ),
                None => false,
            }),
        }),
{
    let found = find_loader_payload(profile);
    let pack = match found {
        Some(p) => p,
        None => {
            return NormalizeOutcome { tree: crate::fstree::clone_tree(profile), pack: None, copies: Vec::new() };
        },
    };
    let ghost packv = path_view(pack@);
    let ghost adds = spec_companion_adds(profile.file_map(), packv);
    proof {
        reveal_strlit("winhttp.dll");
        reveal_strlit("doorstop_config.ini");
        assert("winhttp.dll"@.len() == 11);
        assert("doorstop_config.ini"@.len() == 19);
        assert("winhttp.dll"@ != "doorstop_config.ini"@);
    }
    let mut tree = crate::fstree::clone_tree(profile);
    let mut copies: Vec<FileRec> = Vec::new();
    // loader shim
    let mut src_w = clone_path(&pack);
    src_w.push(String::from_str("winhttp.dll"));
    let mut root_w: Vec<String> = Vec::new();
    root_w.push(String::from_str("winhttp.dll"));
    proof {
        assert(path_view(src_w@) =~= packv.push("winhttp.dll"@));
        assert(path_view(root_w@) =~= seq!["winhttp.dll"@]);
    }
    if let Some(sz) = profile.lookup_file(&src_w) {
        if tree.lookup_file(&root_w).is_none() {
            let rec = FileRec { path: clone_path(&root_w), size: sz };
            let crec = FileRec { path: clone_path(&root_w), size: sz };
            proof {
                assert(file_view(rec) == (seq!["winhttp.dll"@], sz));
                assert forall|t: int| 0 <= t < tree.fv().len() implies (#[trigger] tree.fv()[t]).0
                    != seq!["winhttp.dll"@] by {
                    lemma_files_found(tree.fv(), t);
                }
            }
            let ghost before = tree.files@;
            tree.files.push(rec);
            copies.push(crec);
            proof {
                crate::fstree::lemma_files_view_push(before, rec);
            }
        }
    }
    proof {
        let w = "winhttp.dll"@;
        let first = (if profile.file_map().contains_key(packv.push(w))
            && !profile.file_map().contains_key(seq![w]) {
            seq![(seq![w], profile.file_map()[packv.push(w)])]
        } else {
            Seq::<(Seq<Seq<char>>, u64)>::empty()
        });
        assert(tree.fv() =~= profile.fv() + first);
        assert(files_view(copies@) =~= first);
        crate::fstree::lemma_files_map_concat(profile.fv(), first);
        // the tree still looks like the profile at the doorstop paths
        assert(tree.dv() == profile.dv());
    }
    let ghost tree1fv = tree.fv();
    // loader configuration
    let mut src_d = clone_path(&pack);
    src_d.push(String::from_str("doorstop_config.ini"));
    let mut root_d: Vec<String> = Vec::new();
    root_d.push(String::from_str("doorstop_config.ini"));
    proof {
        assert(path_view(src_d@) =~= packv.push("doorstop_config.ini"@));
        assert(path_view(root_d@) =~= seq!["doorstop_config.ini"@]);
        // uniqueness of the grown list
        let w = "winhttp.dll"@;
        assert(unique_paths(tree.fv())) by {
            assert forall|a: int, b: int| 0 <= a < b < tree.fv().len() implies (
            #[trigger] tree.fv()[a]).0 != (#[trigger] tree.fv()[b]).0 by {
                if b < profile.fv().len() {
                    assert(tree.fv()[a] == profile.fv()[a] && tree.fv()[b] == profile.fv()[b]);
                } else {
                    assert(tree.fv()[a] == profile.fv()[a]);
                    if profile.fv()[a].0 == seq![w] {
                        lemma_files_found(profile.fv(), a);
                    }
                }
            }
        }
    }
    let src_d_res = profile.lookup_file(&src_d);
    let root_d_present = tree.lookup_file(&root_d).is_some();
    proof {
        let w = "winhttp.dll"@;
        let d = "doorstop_config.ini"@;
        let first = (if profile.file_map().contains_key(packv.push(w))
            && !profile.file_map().contains_key(seq![w]) {
            seq![(seq![w], profile.file_map()[packv.push(w)])]
        } else {
            Seq::<(Seq<Seq<char>>, u64)>::empty()
        });
        assert(tree.fv() == profile.fv() + first);
        crate::fstree::lemma_files_map_concat(profile.fv(), first);
        reveal_strlit("winhttp.dll");
        reveal_strlit("doorstop_config.ini");
        assert("winhttp.dll"@.len() == 11);
        assert("doorstop_config.ini"@.len() == 19);
        if seq![w] == seq![d] {
            assert(seq![w][0] == seq![d][0]);
            assert(false);
        }
        if first.len() > 0 {
            assert(first.drop_last() =~= Seq::<(Seq<Seq<char>>, u64)>::empty());
            assert(first.last().0 == seq![w]);
            assert(files_map_of(first) == files_map_of(
                Seq::<(Seq<Seq<char>>, u64)>::empty(),
            ).insert(seq![w], first.last().1));
        }
        assert(!files_map_of(first).contains_key(seq![d]));
        assert(tree.file_map().contains_key(seq![d]) == profile.file_map().contains_key(seq![d]));
    }
    if let Some(sz) = src_d_res {
        if !root_d_present {
            let rec = FileRec { path: clone_path(&root_d), size: sz };
            let crec = FileRec { path: clone_path(&root_d), size: sz };
            proof {
                assert(file_view(rec) == (seq!["doorstop_config.ini"@], sz));
                assert forall|t: int| 0 <= t < tree.fv().len() implies (#[trigger] tree.fv()[t]).0
                    != seq!["doorstop_config.ini"@] by {
                    lemma_files_found(tree.fv(), t);
                }
            }
            let ghost before = tree.files@;
            let ghost cbefore = copies@;
            tree.files.push(rec);
            copies.push(crec);
            proof {
                crate::fstree::lemma_files_view_push(before, rec);
                crate::fstree::lemma_files_view_push(cbefore, crec);
                assert(tree.fv() =~= profile.fv() + adds);
                assert(files_view(copies@) =~= adds);
            }
        } else {
            proof {
                assert(tree.fv() =~= profile.fv() + adds);
                assert(files_view(copies@) =~= adds);
            }
        }
    } else {
        proof {
            assert(tree.fv() =~= profile.fv() + adds);
            assert(files_view(copies@) =~= adds);
        }
    }
    proof {
        crate::fstree::lemma_files_map_concat(profile.fv(), adds);
        assert(unique_paths(tree.fv())) by {
            assert forall|a: int, b: int| 0 <= a < b < tree.fv().len() implies (
            #[trigger] tree.fv()[a]).0 != (#[trigger] tree.fv()[b]).0 by {
                if b < profile.fv().len() {
                    assert(tree.fv()[a] == profile.fv()[a] && tree.fv()[b] == profile.fv()[b]);
                } else if a < profile.fv().len() {
                    assert(tree.fv()[a] == profile.fv()[a]);
                    assert(tree.fv()[b] == adds[b - profile.fv().len()]);
                    if profile.fv()[a].0 == tree.fv()[b].0 {
                        lemma_files_found(profile.fv(), a);
                        assert(false);
                    }
                } else {
                    assert(tree.fv()[a] == adds[a - profile.fv().len()]);
                    assert(tree.fv()[b] == adds[b - profile.fv().len()]);
                }
            }
        }
        assert(tree.wf());
    }
    let ghost mid_map = profile.file_map().union_prefer_right(files_map_of(adds));
    proof {
        assert(tree.file_map() == mid_map);
    }
    // merge the payload's runtime subtree, additively
    let rebased = rebase_pack(profile, &pack);
    let merged = crate::mirror::mirror(&rebased, &tree);
    let mut copies = copies;
    let mut merge_copies = merged.copies;
    let ghost cb = copies@;
    let ghost mb = merge_copies@;
    copies.append(&mut merge_copies);
    proof {
        assert(files_view(copies@) =~= files_view(cb) + files_view(mb));
    }
    NormalizeOutcome { tree: merged.tree, pack: Some(pack), copies }
}

/// The root-level loader files that step four copies: each companion the
/// normalized profile holds at its root, with its size, always.
pub open spec fn spec_root_syncs(pfm: Map<Seq<Seq<char>>, u64>) -> (Seq<(Seq<Seq<char>>, u64)>) {
    let w = "winhttp.dll"@;
    let d = "doorstop_config.ini"@;
    (if pfm.contains_key(seq![w]) {
        seq![(seq![w], pfm[seq![w]])]
    } else {
        Seq::empty()
    }) + (if pfm.contains_key(seq![d]) {
        seq![(seq![d], pfm[seq![d]])]
    } else {
        Seq::empty()
    })
}

/// A map with the root-level loader files of the normalized profile forced
/// over it.
pub open spec fn spec_with_root_files(
    m: Map<Seq<Seq<char>>, u64>,
    pfm: Map<Seq<Seq<char>>, u64>,
) -> (Map<Seq<Seq<char>>, u64>) {
    let w = "winhttp.dll"@;
    let d = "doorstop_config.ini"@;
    let m1 = if pfm.contains_key(seq![w]) {
        m.insert(seq![w], pfm[seq![w]])
    } else {
        m
    };
    if pfm.contains_key(seq![d]) {
        m1.insert(seq![d], pfm[seq![d]])
    } else {
        m1
    }
}

/// Everything one deployment run did.
pub struct DeployOutcome {
    pub profile: FsTree,
    pub target: FsTree,
    pub pack: Option<Vec<String>>,
    pub profile_copies: Vec<FileRec>,
    pub enabled: Vec<String>,
    pub removed: Vec<String>,
    pub copies: Vec<FileRec>,
    pub created: Vec<Vec<String>>,
}

/// One deployment run, in order: payload normalization (step one), orphan
/// and disabled cleanup (step two), selective copy of the profile's runtime
/// tree (step three), and unconditional root loader-file sync (step four).
/// Afterwards the target holds: its own files that survived the cleanup,
/// overlaid with the selected profile files, overlaid with the root loader
/// files. The copies, removals and creations returned are exactly those the
/// run performs on a real directory pair.
pub fn deploy(profile: &FsTree, target: &FsTree, disabled: &Vec<String>) -> (r: DeployOutcome)
    requires
        profile.wf(),
        target.wf(),
    ensures
        r.profile.wf(),
        r.target.wf(),
        (match spec_find_pack(profile.dv(), profile.file_map(), 0) {
            None => r.profile.fv() == profile.fv() && r.profile.dv() == profile.dv()
                && r.pack is None && r.profile_copies@.len() == 0,
            Some(packv) => (match r.pack {
                Some(pp) => path_view(pp@) == packv && r.profile.file_map() == profile.file_map(
                ).union_prefer_right(
                    files_map_of(spec_companion_adds(profile.file_map(), packv)),
                ).union_prefer_right(
                    files_map_of(spec_rebase_files(profile.fv(), packv)),
                ) && r.profile.dir_set() == profile.dir_set() + dirs_set_of(
                    spec_rebase_dirs(profile.dv(), packv),
                ) && files_view(r.profile_copies@) == spec_companion_adds(
                    profile.file_map(),
                    packv,
                ) + spec_copies(
                    spec_rebase_files(profile.fv(), packv),
                    profile.file_map().union_prefer_right(
                        files_map_of(spec_companion_adds(profile.file_map(), packv)),
                    ),
                ),
                None => false,
            }),
        }),
        seq_views(r.enabled@) == spec_enabled_names(r.profile.dv(), seq_views(disabled@)),
        seq_views(r.removed@) == spec_removed_names(target.dv(), seq_views(r.enabled@)),
        r.target.file_map() == spec_with_root_files(
            target.file_map().restrict(
                Set::new(cleanup_keep_file(seq_views(r.enabled@))),
            ).union_prefer_right(
                files_map_of(spec_keep_files(r.profile.fv(), copy_keep(seq_views(disabled@)))),
            ),
            r.profile.file_map(),
        ),
        r.target.dir_set() == target.dir_set().intersect(
            Set::new(cleanup_keep_dir(seq_views(r.enabled@))),
        ) + r.profile.dir_set().intersect(Set::new(copy_keep(seq_views(disabled@)))),
        files_view(r.copies@) == spec_copies(
            spec_keep_files(r.profile.fv(), copy_keep(seq_views(disabled@))),
            target.file_map().restrict(Set::new(cleanup_keep_file(seq_views(r.enabled@)))),
        ) + spec_root_syncs(r.profile.file_map()),
        dirs_view(r.created@) == crate::mirror::spec_new_dirs(
            spec_keep_dirs(r.profile.dv(), copy_keep(seq_views(disabled@))),
            target.dir_set().intersect(Set::new(cleanup_keep_dir(seq_views(r.enabled@)))),
        ),
{
    let n = normalize_payload(profile);
    let enabled = enabled_mod_names(&n.tree, disabled);
    let (cleaned, removed) = cleanup_target(target, &enabled);
    let selected = select_profile(&n.tree, disabled);
    let m = crate::mirror::mirror(&selected, &cleaned);
    let mut tgt = m.tree;
    let mut copies = m.copies;
    let ghost base_copies = files_view(copies@);
    let ghost pfm = n.tree.file_map();
    proof {
        reveal_strlit("winhttp.dll");
        reveal_strlit("doorstop_config.ini");
        assert("winhttp.dll"@.len() == 11);
        assert("doorstop_config.ini"@.len() == 19);
    }
    let mut root_w: Vec<String> = Vec::new();
    root_w.push(String::from_str("winhttp.dll"));
    let mut root_d: Vec<String> = Vec::new();
    root_d.push(String::from_str("doorstop_config.ini"));
    proof {
        assert(path_view(root_w@) =~= seq!["winhttp.dll"@]);
        assert(path_view(root_d@) =~= seq!["doorstop_config.ini"@]);
    }
    let ghost mid_map = tgt.file_map();
    let w_res = n.tree.lookup_file(&root_w);
    if let Some(sz) = w_res {
        let rec = FileRec { path: clone_path(&root_w), size: sz };
        let ghost cb = copies@;
        tgt = put_root_file(&tgt, &root_w, sz);
        copies.push(rec);
        proof {
            crate::fstree::lemma_files_view_push(cb, rec);
        }
    }
    proof {
        let w = "winhttp.dll"@;
        let first = (if pfm.contains_key(seq![w]) {
            seq![(seq![w], pfm[seq![w]])]
        } else {
            Seq::<(Seq<Seq<char>>, u64)>::empty()
        });
        assert(files_view(copies@) =~= base_copies + first);
        assert(tgt.file_map() == (if pfm.contains_key(seq![w]) {
            mid_map.insert(seq![w], pfm[seq![w]])
        } else {
            mid_map
        }));
    }
    let ghost mid2_map = tgt.file_map();
    let ghost copies2 = files_view(copies@);
    let d_res = n.tree.lookup_file(&root_d);
    if let Some(sz) = d_res {
        let rec = FileRec { path: clone_path(&root_d), size: sz };
        let ghost cb = copies@;
        tgt = put_root_file(&tgt, &root_d, sz);
        copies.push(rec);
        proof {
            crate::fstree::lemma_files_view_push(cb, rec);
        }
    }
    proof {
        let w = "winhttp.dll"@;
        let d = "doorstop_config.ini"@;
        let second = (if pfm.contains_key(seq![d]) {
            seq![(seq![d], pfm[seq![d]])]
        } else {
            Seq::<(Seq<Seq<char>>, u64)>::empty()
        });
        assert(files_view(copies@) =~= copies2 + second);
        assert(files_view(copies@) =~= base_copies + spec_root_syncs(pfm));
        assert(tgt.file_map() == spec_with_root_files(mid_map, pfm));
    }
    DeployOutcome {
        profile: n.tree,
        target: tgt,
        pack: n.pack,
        profile_copies: n.copies,
        enabled,
        removed,
        copies,
        created: m.created,
    }
}

/// A name is among the enabled names exactly when the profile holds its mod
/// folder and it is not disabled.
proof fn lemma_enabled_member(dv: Seq<Seq<Seq<char>>>, disabled: Seq<Seq<char>>, nm: Seq<char>)
    ensures
        name_in(spec_enabled_names(dv, disabled), nm) == ((exists|i: int|
            0 <= i < dv.len() && #[trigger] dv[i] == seq![runtime_dir(), "plugins"@, nm])
            && !spec_is_disabled(nm, disabled)),
    decreases dv.len(),
{
    let en = spec_enabled_names(dv, disabled);
    let pd = seq![runtime_dir(), "plugins"@, nm];
    if dv.len() == 0 {
        if name_in(en, nm) {
            let i = choose|i: int| 0 <= i < en.len() && #[trigger] en[i] == nm;
            assert(false);
        }
    } else {
        lemma_enabled_member(dv.drop_last(), disabled, nm);
        let inner = spec_enabled_names(dv.drop_last(), disabled);
        if is_mod_dir(dv.last()) && !spec_is_disabled(dv.last()[2], disabled) {
            assert(en == inner.push(dv.last()[2]));
            if name_in(en, nm) {
                let i = choose|i: int| 0 <= i < en.len() && #[trigger] en[i] == nm;
                if i < en.len() - 1 {
                    assert(inner[i] == nm);
                    assert(name_in(inner, nm));
                    let v = choose|v: int|
                        0 <= v < dv.drop_last().len() && #[trigger] dv.drop_last()[v] == pd;
                    assert(dv[v] == pd);
                } else {
                    assert(dv.last()[2] == nm);
                    assert(dv.last() =~= pd);
                    assert(dv[dv.len() - 1] == pd);
                }
            }
            if (exists|i: int| 0 <= i < dv.len() && #[trigger] dv[i] == pd) && !spec_is_disabled(
                nm,
                disabled,
            ) {
                let i = choose|i: int| 0 <= i < dv.len() && #[trigger] dv[i] == pd;
                if i < dv.len() - 1 {
                    assert(dv.drop_last()[i] == pd);
                    assert(name_in(inner, nm));
                    let v = choose|v: int| 0 <= v < inner.len() && #[trigger] inner[v] == nm;
                    assert(en[v] == nm);
                } else {
                    assert(en[en.len() - 1] == nm);
                }
            }
        } else {
            assert(en == inner);
            if name_in(en, nm) {
                let v = choose|v: int|
                    0 <= v < dv.drop_last().len() && #[trigger] dv.drop_last()[v] == pd;
                assert(dv[v] == pd);
            }
            if (exists|i: int| 0 <= i < dv.len() && #[trigger] dv[i] == pd) && !spec_is_disabled(
                nm,
                disabled,
            ) {
                let i = choose|i: int| 0 <= i < dv.len() && #[trigger] dv[i] == pd;
                if i == dv.len() - 1 {
                    assert(is_mod_dir(dv.last()) && dv.last()[2] == nm);
                    assert(false);
                } else {
                    assert(dv.drop_last()[i] == pd);
                }
            }
        }
    }
}

/// After a deployment run the target's mod-folder set is exactly the
/// profile's enabled mod-folder set, whatever the target held before:
/// for every name, the deployed target holds the plugin folder
/// `BepInEx/plugins/<name>` exactly when the (normalized) profile holds it
/// and the name is not disabled.
pub proof fn lemma_deploy_mod_folders(
    profile_norm: FsTree,
    target: FsTree,
    disabled: Seq<Seq<char>>,
    final_dirs: Set<Seq<Seq<char>>>,
)
    requires
        final_dirs == target.dir_set().intersect(
            Set::new(cleanup_keep_dir(spec_enabled_names(profile_norm.dv(), disabled))),
        ) + profile_norm.dir_set().intersect(Set::new(copy_keep(disabled))),
    ensures
        forall|nm: Seq<char>|
            final_dirs.contains(seq![runtime_dir(), "plugins"@, nm]) == name_in(
                #[trigger] spec_enabled_names(profile_norm.dv(), disabled),
                nm,
            ),
{
    let en = spec_enabled_names(profile_norm.dv(), disabled);
    assert forall|nm: Seq<char>|
        final_dirs.contains(seq![runtime_dir(), "plugins"@, nm]) == name_in(
            #[trigger] spec_enabled_names(profile_norm.dv(), disabled),
            nm,
        ) by {
        let pd = seq![runtime_dir(), "plugins"@, nm];
        lemma_enabled_member(profile_norm.dv(), disabled, nm);
        assert(pd.len() == 3 && pd[0] == runtime_dir() && pd[1] == "plugins"@ && pd[2] == nm);
        if final_dirs.contains(pd) {
            if target.dir_set().intersect(Set::new(cleanup_keep_dir(en))).contains(pd) {
                assert(cleanup_keep_dir(en)(pd));
                assert(survives_cleanup(pd, en, true));
                assert(name_in(en, nm));
            } else {
                assert(profile_norm.dir_set().contains(pd));
                assert(copy_keep(disabled)(pd));
                assert(selected_for_copy(pd, disabled));
                assert(!spec_is_disabled(nm, disabled));
                crate::fstree::lemma_dirs_set_member(profile_norm.dv(), pd);
                assert(name_in(en, nm));
            }
        }
        if name_in(en, nm) {
            let i = choose|i: int|
                0 <= i < profile_norm.dv().len() && #[trigger] profile_norm.dv()[i] == pd;
            lemma_dirs_found(profile_norm.dv(), i);
            assert(profile_norm.dir_set().contains(pd));
            assert(!spec_is_disabled(nm, disabled));
            assert(selected_for_copy(pd, disabled));
            assert(copy_keep(disabled)(pd));
            assert(profile_norm.dir_set().intersect(Set::new(copy_keep(disabled))).contains(pd));
        }
    }
}

/// Payload normalization puts each companion file the payload carries at
/// the profile root: after one run, the normalized profile's file map holds
/// the companion at the root.
pub proof fn lemma_companion_at_root(
    profile: FsTree,
    packv: Seq<Seq<char>>,
    c: Seq<char>,
    norm_map: Map<Seq<Seq<char>>, u64>,
)
    requires
        c == "winhttp.dll"@ || c == "doorstop_config.ini"@,
        profile.file_map().contains_key(packv.push(c)),
        norm_map == profile.file_map().union_prefer_right(
            files_map_of(spec_companion_adds(profile.file_map(), packv)),
        ).union_prefer_right(files_map_of(spec_rebase_files(profile.fv(), packv))),
    ensures
        norm_map.contains_key(seq![c]),
{
    let fm = profile.file_map();
    let w = "winhttp.dll"@;
    let d = "doorstop_config.ini"@;
    let adds = spec_companion_adds(fm, packv);
    if fm.contains_key(seq![c]) {
    } else {
        let part1 = (if fm.contains_key(packv.push(w)) && !fm.contains_key(seq![w]) {
            seq![(seq![w], fm[packv.push(w)])]
        } else {
            Seq::<(Seq<Seq<char>>, u64)>::empty()
        });
        let part2 = (if fm.contains_key(packv.push(d)) && !fm.contains_key(seq![d]) {
            seq![(seq![d], fm[packv.push(d)])]
        } else {
            Seq::<(Seq<Seq<char>>, u64)>::empty()
        });
        assert(adds == part1 + part2);
        crate::fstree::lemma_files_map_concat(part1, part2);
        if c == w {
            assert(part1.len() == 1);
            assert(part1.drop_last() =~= Seq::<(Seq<Seq<char>>, u64)>::empty());
            assert(files_map_of(part1).contains_key(seq![w]));
            assert(files_map_of(adds).contains_key(seq![c]));
        } else {
            assert(part2.len() == 1);
            assert(part2.drop_last() =~= Seq::<(Seq<Seq<char>>, u64)>::empty());
            assert(files_map_of(part2).contains_key(seq![d]));
            assert(files_map_of(adds).contains_key(seq![c]));
        }
    }
}

/// Every plugin-area entry's mod folder is itself listed: the shape every
/// tree read from a real directory has, since a file's parent directories
/// exist.
pub open spec fn plugin_closed(t: FsTree) -> bool {
    (forall|i: int|
        0 <= i < t.fv().len() && (#[trigger] t.fv()[i]).0.len() > 3 && t.fv()[i].0[0]
            == runtime_dir() && t.fv()[i].0[1] == "plugins"@ ==> t.dir_set().contains(
            seq![runtime_dir(), "plugins"@, t.fv()[i].0[2]],
        )) && (forall|i: int|
        0 <= i < t.dv().len() && (#[trigger] t.dv()[i]).len() > 3 && t.dv()[i][0] == runtime_dir()
            && t.dv()[i][1] == "plugins"@ ==> t.dir_set().contains(
            seq![runtime_dir(), "plugins"@, t.dv()[i][2]],
        ))
}

/// No mod folder is removed when every mod folder's name is enabled.
proof fn lemma_removed_none(dv: Seq<Seq<Seq<char>>>, enabled: Seq<Seq<char>>)
    requires
        forall|i: int|
            0 <= i < dv.len() && is_mod_dir(#[trigger] dv[i]) ==> name_in(enabled, dv[i][2]),
    ensures
        spec_removed_names(dv, enabled) == Seq::<Seq<char>>::empty(),
    decreases dv.len(),
{
    if dv.len() > 0 {
        lemma_removed_none(dv.drop_last(), enabled);
        if is_mod_dir(dv.last()) {
            assert(name_in(enabled, dv[dv.len() - 1][2]));
        }
    }
}

/// A deployment run with no loader payload in the profile converges in one
/// pass: a second run over its own output removes no folder, copies no file
/// through the mirror, and creates no directory. (Step four still re-syncs
/// the root loader files: that sync is unconditional by design.)
pub proof fn lemma_deploy_idempotent(
    profile: FsTree,
    target: FsTree,
    t1: FsTree,
    disabled: Seq<Seq<char>>,
)
    requires
        profile.wf(),
        plugin_closed(profile),
        t1.file_map() == spec_with_root_files(
            target.file_map().restrict(
                Set::new(cleanup_keep_file(spec_enabled_names(profile.dv(), disabled))),
            ).union_prefer_right(
                files_map_of(spec_keep_files(profile.fv(), copy_keep(disabled))),
            ),
            profile.file_map(),
        ),
        t1.dir_set() == target.dir_set().intersect(
            Set::new(cleanup_keep_dir(spec_enabled_names(profile.dv(), disabled))),
        ) + profile.dir_set().intersect(Set::new(copy_keep(disabled))),
    ensures
        spec_removed_names(t1.dv(), spec_enabled_names(profile.dv(), disabled)) == Seq::<
            Seq<char>,
        >::empty(),
        spec_copies(
            spec_keep_files(profile.fv(), copy_keep(disabled)),
            t1.file_map().restrict(
                Set::new(cleanup_keep_file(spec_enabled_names(profile.dv(), disabled))),
            ),
        ) == Seq::<(Seq<Seq<char>>, u64)>::empty(),
        crate::mirror::spec_new_dirs(
            spec_keep_dirs(profile.dv(), copy_keep(disabled)),
            t1.dir_set().intersect(
                Set::new(cleanup_keep_dir(spec_enabled_names(profile.dv(), disabled))),
            ),
        ) == Seq::<Seq<Seq<char>>>::empty(),
{
    let en = spec_enabled_names(profile.dv(), disabled);
    let selfv = spec_keep_files(profile.fv(), copy_keep(disabled));
    let seldv = spec_keep_dirs(profile.dv(), copy_keep(disabled));
    lemma_keep_files(profile.fv(), copy_keep(disabled));
    lemma_keep_dirs(profile.dv(), copy_keep(disabled));
    lemma_deploy_mod_folders(profile, target, disabled, t1.dir_set());
    proof_strlit_facts();
    // step two of the second run deletes nothing: every mod folder the
    // first run left carries an enabled name
    assert forall|i: int| 0 <= i < t1.dv().len() && is_mod_dir(#[trigger] t1.dv()[i]) implies
        name_in(en, t1.dv()[i][2]) by {
        lemma_dirs_found(t1.dv(), i);
        let d = t1.dv()[i];
        assert(d =~= seq![runtime_dir(), "plugins"@, d[2]]);
        assert(t1.dir_set().contains(seq![runtime_dir(), "plugins"@, d[2]]));
    }
    lemma_removed_none(t1.dv(), en);
    // a selected profile path survives the second run's cleanup
    assert forall|i: int| 0 <= i < selfv.len() implies cleanup_keep_file(en)(
        (#[trigger] selfv[i]).0,
    ) by {
        let q = selfv[i].0;
        assert(copy_keep(disabled)(q));
        if q.len() > 3 && q[0] == runtime_dir() && q[1] == "plugins"@ {
            lemma_keep_member(profile.fv(), copy_keep(disabled), i);
            let w = choose|w: int| 0 <= w < profile.fv().len() && (#[trigger] profile.fv()[w]).0 == q;
            assert(profile.dir_set().contains(seq![runtime_dir(), "plugins"@, q[2]]));
            crate::fstree::lemma_dirs_set_member(
                profile.dv(),
                seq![runtime_dir(), "plugins"@, q[2]],
            );
            lemma_enabled_member(profile.dv(), disabled, q[2]);
            assert(name_in(en, q[2]));
        }
    }
    // step three of the second run copies nothing: the first run's target
    // already holds every selected file at its selected size
    let cleaned2 = t1.file_map().restrict(Set::new(cleanup_keep_file(en)));
    assert forall|i: int| 0 <= i < selfv.len() implies !crate::mirror::needs_copy(
        #[trigger] selfv[i],
        cleaned2,
    ) by {
        let q = selfv[i].0;
        let sel_map = files_map_of(selfv);
        lemma_files_found(selfv, i);
        assert(sel_map.contains_key(q) && sel_map[q] == selfv[i].1);
        assert(q.len() >= 1 && q[0] == runtime_dir());
        // the root loader files live at single-component paths off the root
        assert(q != seq!["winhttp.dll"@]);
        assert(q != seq!["doorstop_config.ini"@]);
        assert(t1.file_map().contains_key(q) && t1.file_map()[q] == selfv[i].1);
        assert(cleanup_keep_file(en)(q));
        assert(cleaned2.contains_key(q) && cleaned2[q] == selfv[i].1);
    }
    crate::mirror::lemma_copies_none(selfv, cleaned2);
    // and creates nothing: every selected directory is already there
    let keptdirs2 = t1.dir_set().intersect(Set::new(cleanup_keep_dir(en)));
    assert forall|i: int| 0 <= i < seldv.len() implies keptdirs2.contains(
        #[trigger] seldv[i],
    ) by {
        let d = seldv[i];
        lemma_dirs_found(seldv, i);
        assert(dirs_set_of(seldv).contains(d));
        assert(copy_keep(disabled)(d));
        lemma_keep_dirs_member(profile.dv(), copy_keep(disabled), i);
        let w = choose|w: int| 0 <= w < profile.dv().len() && #[trigger] profile.dv()[w] == d;
        lemma_dirs_found(profile.dv(), w);
        assert(profile.dir_set().contains(d));
        assert(t1.dir_set().contains(d));
        if d.len() >= 3 && d[0] == runtime_dir() && d[1] == "plugins"@ {
            if d.len() == 3 {
                assert(d =~= seq![runtime_dir(), "plugins"@, d[2]]);
                crate::fstree::lemma_dirs_set_member(profile.dv(), d);
                lemma_enabled_member(profile.dv(), disabled, d[2]);
                assert(name_in(en, d[2]));
            } else {
                assert(profile.dir_set().contains(seq![runtime_dir(), "plugins"@, d[2]]));
                crate::fstree::lemma_dirs_set_member(
                    profile.dv(),
                    seq![runtime_dir(), "plugins"@, d[2]],
                );
                lemma_enabled_member(profile.dv(), disabled, d[2]);
                assert(name_in(en, d[2]));
            }
        }
        assert(cleanup_keep_dir(en)(d));
    }
    crate::mirror::lemma_new_dirs_none(seldv, keptdirs2);
}

/// A kept directory is one of the original list.
proof fn lemma_keep_dirs_member(
    dv: Seq<Seq<Seq<char>>>,
    keep: spec_fn(Seq<Seq<char>>) -> bool,
    i: int,
)
    requires
        0 <= i < spec_keep_dirs(dv, keep).len(),
    ensures
        exists|w: int| 0 <= w < dv.len() && #[trigger] dv[w] == spec_keep_dirs(dv, keep)[i],
    decreases dv.len(),
{
    let kept = spec_keep_dirs(dv, keep);
    if dv.len() > 0 {
        let inner = spec_keep_dirs(dv.drop_last(), keep);
        if keep(dv.last()) && i == kept.len() - 1 {
            assert(dv[dv.len() - 1] == kept[i]);
        } else {
            assert(kept[i] == inner[i]);
            lemma_keep_dirs_member(dv.drop_last(), keep, i);
            let w = choose|w: int| 0 <= w < dv.drop_last().len() && #[trigger] dv.drop_last()[w] == inner[i];
            assert(dv[w] == kept[i]);
        }
    }
}

/// The distinct literals the deployment reasons about.
proof fn proof_strlit_facts()
    ensures
        "BepInEx"@ != "winhttp.dll"@,
        "BepInEx"@ != "doorstop_config.ini"@,
        "winhttp.dll"@ != "doorstop_config.ini"@,
{
    reveal_strlit("BepInEx");
    reveal_strlit("winhttp.dll");
    reveal_strlit("doorstop_config.ini");
    assert("BepInEx"@.len() == 7);
    assert("winhttp.dll"@.len() == 11);
    assert("doorstop_config.ini"@.len() == 19);
}

/// The phases of one deployment run, in their fixed order. A file-system
/// failure while a phase is being played back is terminal: the run stops
/// there, nothing is rolled back, and a re-invocation starts over from the
/// first phase (safe, because every phase is idempotent).
#[derive(Clone, Copy, PartialEq, Eq, Structural, Debug)]
pub enum DeployPhase {
    NormalizingPayload,
    CleaningOrphans,
    CopyingEnabled,
    SyncingRootFiles,
}

/// The phase that follows `p`; the last phase completes the run.
pub fn next_phase(p: DeployPhase) -> (r: Option<DeployPhase>)
    ensures
        r == (match p {
            DeployPhase::NormalizingPayload => Some(DeployPhase::CleaningOrphans),
            DeployPhase::CleaningOrphans => Some(DeployPhase::CopyingEnabled),
            DeployPhase::CopyingEnabled => Some(DeployPhase::SyncingRootFiles),
            DeployPhase::SyncingRootFiles => None::<DeployPhase>,
        }),
{
    match p {
        DeployPhase::NormalizingPayload => Some(DeployPhase::CleaningOrphans),
        DeployPhase::CleaningOrphans => Some(DeployPhase::CopyingEnabled),
        DeployPhase::CopyingEnabled => Some(DeployPhase::SyncingRootFiles),
        DeployPhase::SyncingRootFiles => None,
    }
}

/// The phase's name, for failure reports.
pub fn phase_label(p: DeployPhase) -> (r: String)
    ensures
        r@ == (match p {
            DeployPhase::NormalizingPayload => "normalizing payload"@,
            DeployPhase::CleaningOrphans => "cleaning orphans"@,
            DeployPhase::CopyingEnabled => "copying enabled mods"@,
            DeployPhase::SyncingRootFiles => "syncing root files"@,
        }),
{
    match p {
        DeployPhase::NormalizingPayload => String::from_str("normalizing payload"),
        DeployPhase::CleaningOrphans => String::from_str("cleaning orphans"),
        DeployPhase::CopyingEnabled => String::from_str("copying enabled mods"),
        DeployPhase::SyncingRootFiles => String::from_str("syncing root files"),
    }
}

/// A found payload directory satisfies the payload shape.
proof fn lemma_find_pack_is_pack(
    dv: Seq<Seq<Seq<char>>>,
    fm: Map<Seq<Seq<char>>, u64>,
    i: int,
    p: Seq<Seq<char>>,
)
    requires
        spec_find_pack(dv, fm, i) == Some(p),
        0 <= i,
    ensures
        is_pack_dir(p, fm),
    decreases dv.len() - i,
{
    if i < dv.len() && !is_pack_dir(dv[i], fm) {
        lemma_find_pack_is_pack(dv, fm, i + 1, p);
    }
}

/// Scanning an extended directory list under a map that agrees on every
/// payload check of the prefix finds the same payload.
proof fn lemma_find_pack_stable(
    pdv: Seq<Seq<Seq<char>>>,
    ndv: Seq<Seq<Seq<char>>>,
    pm: Map<Seq<Seq<char>>, u64>,
    nm: Map<Seq<Seq<char>>, u64>,
    i: int,
    p: Seq<Seq<char>>,
)
    requires
        0 <= i,
        spec_find_pack(pdv, pm, i) == Some(p),
        ndv.len() >= pdv.len(),
        forall|j: int|
            i <= j < pdv.len() ==> #[trigger] ndv[j] == pdv[j] && (is_pack_dir(pdv[j], pm)
                == is_pack_dir(ndv[j], nm)),
    ensures
        spec_find_pack(ndv, nm, i) == Some(p),
    decreases pdv.len() - i,
{
    if i < pdv.len() {
        if is_pack_dir(pdv[i], pm) {
            assert(spec_find_pack(ndv, nm, i) == Some(ndv[i]));
        } else {
            lemma_find_pack_stable(pdv, ndv, pm, nm, i + 1, p);
        }
    }
}

/// A kept record is one of the original records, whole.
proof fn lemma_kept_rec_member(
    fv: Seq<(Seq<Seq<char>>, u64)>,
    m: Map<Seq<Seq<char>>, u64>,
    i: int,
)
    requires
        0 <= i < crate::mirror::spec_kept_files(fv, m).len(),
    ensures
        exists|w: int|
            0 <= w < fv.len() && #[trigger] fv[w] == crate::mirror::spec_kept_files(fv, m)[i],
    decreases fv.len(),
{
    let kept = crate::mirror::spec_kept_files(fv, m);
    if fv.len() > 0 {
        let inner = crate::mirror::spec_kept_files(fv.drop_last(), m);
        if !m.contains_key(fv.last().0) && i == kept.len() - 1 {
            assert(fv[fv.len() - 1] == kept[i]);
        } else {
            assert(kept[i] == inner[i]);
            lemma_kept_rec_member(fv.drop_last(), m, i);
            let w = choose|w: int| 0 <= w < fv.drop_last().len() && #[trigger] fv.drop_last()[w] == inner[i];
            assert(fv[w] == kept[i]);
        }
    }
}

/// A record under the payload's runtime tree appears, rebased, in the
/// rebased list.
proof fn lemma_rebase_forward(fv: Seq<(Seq<Seq<char>>, u64)>, pack: Seq<Seq<char>>, w: int)
    requires
        0 <= w < fv.len(),
        spec_starts_with(fv[w].0, pack.push(runtime_dir())),
    ensures
        exists|t: int|
            0 <= t < spec_rebase_files(fv, pack).len() && #[trigger] spec_rebase_files(fv, pack)[t]
                == (fv[w].0.skip(pack.len() as int), fv[w].1),
    decreases fv.len(),
{
    let reb = spec_rebase_files(fv, pack);
    if w == fv.len() - 1 {
        assert(reb[reb.len() - 1] == (fv[w].0.skip(pack.len() as int), fv[w].1));
    } else {
        lemma_rebase_forward(fv.drop_last(), pack, w);
        let inner = spec_rebase_files(fv.drop_last(), pack);
        let t = choose|t: int|
            0 <= t < inner.len() && #[trigger] inner[t] == (
                fv.drop_last()[w].0.skip(pack.len() as int),
                fv.drop_last()[w].1,
            );
        assert(reb[t] == (fv[w].0.skip(pack.len() as int), fv[w].1));
    }
}

/// A directory under the payload's runtime tree appears, rebased, in the
/// rebased directory list.
proof fn lemma_rebase_dirs_forward(dv: Seq<Seq<Seq<char>>>, pack: Seq<Seq<char>>, w: int)
    requires
        0 <= w < dv.len(),
        spec_starts_with(dv[w], pack.push(runtime_dir())),
    ensures
        exists|t: int|
            0 <= t < spec_rebase_dirs(dv, pack).len() && #[trigger] spec_rebase_dirs(dv, pack)[t]
                == dv[w].skip(pack.len() as int),
    decreases dv.len(),
{
    let reb = spec_rebase_dirs(dv, pack);
    if w == dv.len() - 1 {
        assert(reb[reb.len() - 1] == dv[w].skip(pack.len() as int));
    } else {
        lemma_rebase_dirs_forward(dv.drop_last(), pack, w);
        let inner = spec_rebase_dirs(dv.drop_last(), pack);
        let t = choose|t: int|
            0 <= t < inner.len() && #[trigger] inner[t] == dv.drop_last()[w].skip(
                pack.len() as int,
            );
        assert(reb[t] == dv[w].skip(pack.len() as int));
    }
}

/// A created directory is one of the source directories.
proof fn lemma_new_dirs_member(dv: Seq<Seq<Seq<char>>>, dst: Set<Seq<Seq<char>>>, i: int)
    requires
        0 <= i < crate::mirror::spec_new_dirs(dv, dst).len(),
    ensures
        exists|w: int|
            0 <= w < dv.len() && #[trigger] dv[w] == crate::mirror::spec_new_dirs(dv, dst)[i],
    decreases dv.len(),
{
    let new = crate::mirror::spec_new_dirs(dv, dst);
    if dv.len() > 0 {
        let inner = crate::mirror::spec_new_dirs(dv.drop_last(), dst);
        if !dst.contains(dv.last()) && i == new.len() - 1 {
            assert(dv[dv.len() - 1] == new[i]);
        } else {
            assert(new[i] == inner[i]);
            lemma_new_dirs_member(dv.drop_last(), dst, i);
            let w = choose|w: int| 0 <= w < dv.drop_last().len() && #[trigger] dv.drop_last()[w] == inner[i];
            assert(dv[w] == new[i]);
        }
    }
}

/// Payload normalization converges in one pass. Once a profile has been
/// normalized, a second normalization finds the same payload, has no
/// companion file left to add, and finds every runtime file and directory
/// of the payload already merged, so it copies nothing. This holds for any
/// payload whose runtime subtree stays outside the plugin area; a payload
/// that ships a nested plugin area can keep rewriting it.
pub proof fn lemma_normalize_idempotent(profile: FsTree, n1: FsTree, packv: Seq<Seq<char>>)
    requires
        profile.wf(),
        n1.wf(),
        spec_find_pack(profile.dv(), profile.file_map(), 0) == Some(packv),
        forall|i: int|
            0 <= i < spec_rebase_files(profile.fv(), packv).len() ==> !spec_starts_with(
                (#[trigger] spec_rebase_files(profile.fv(), packv)[i]).0,
                plugins_prefix(),
            ),
        forall|i: int|
            0 <= i < spec_rebase_dirs(profile.dv(), packv).len() ==> !spec_starts_with(
                #[trigger] spec_rebase_dirs(profile.dv(), packv)[i],
                plugins_prefix(),
            ),
        n1.file_map() == profile.file_map().union_prefer_right(
            files_map_of(spec_companion_adds(profile.file_map(), packv)),
        ).union_prefer_right(files_map_of(spec_rebase_files(profile.fv(), packv))),
        n1.fv() == crate::mirror::spec_kept_files(
            profile.fv() + spec_companion_adds(profile.file_map(), packv),
            files_map_of(spec_rebase_files(profile.fv(), packv)),
        ) + spec_rebase_files(profile.fv(), packv),
        n1.dv() == profile.dv() + crate::mirror::spec_new_dirs(
            spec_rebase_dirs(profile.dv(), packv),
            profile.dir_set(),
        ),
        n1.dir_set() == profile.dir_set() + dirs_set_of(spec_rebase_dirs(profile.dv(), packv)),
    ensures
        spec_find_pack(n1.dv(), n1.file_map(), 0) == Some(packv),
        spec_companion_adds(n1.file_map(), packv) == Seq::<(Seq<Seq<char>>, u64)>::empty(),
        spec_copies(
            spec_rebase_files(n1.fv(), packv),
            n1.file_map().union_prefer_right(
                files_map_of(spec_companion_adds(n1.file_map(), packv)),
            ),
        ) == Seq::<(Seq<Seq<char>>, u64)>::empty(),
        crate::mirror::spec_new_dirs(spec_rebase_dirs(n1.dv(), packv), n1.dir_set()) == Seq::<
            Seq<Seq<char>>,
        >::empty(),
{
    let pm = profile.file_map();
    let nm = n1.file_map();
    let adds = spec_companion_adds(pm, packv);
    let reb = spec_rebase_files(profile.fv(), packv);
    let rebd = spec_rebase_dirs(profile.dv(), packv);
    let w = "winhttp.dll"@;
    let d = "doorstop_config.ini"@;
    let k = packv.len() as int;
    proof_strlit_facts();
    lemma_find_pack_is_pack(profile.dv(), pm, 0, packv);
    lemma_rebase_files_unique(profile.fv(), packv);
    // a plugin-area path is bound the same way in both maps: the added
    // bindings live at the root or outside the plugin area
    assert forall|q: Seq<Seq<char>>| spec_starts_with(q, plugins_prefix()) implies (
    #[trigger] nm.contains_key(q)) == pm.contains_key(q) && (pm.contains_key(q) ==> nm[q]
        == pm[q]) by {
        assert(q.len() >= 2);
        assert forall|t: int| 0 <= t < adds.len() implies (#[trigger] adds[t]).0 != q by {
            assert(adds[t].0 == seq![w] || adds[t].0 == seq![d]);
        }
        lemma_files_not_found(adds, q);
        assert(!spec_starts_with(q, plugins_prefix()) ==> true);
        assert forall|t: int| 0 <= t < reb.len() implies (#[trigger] reb[t]).0 != q by {
            if reb[t].0 == q {
                assert(spec_starts_with(reb[t].0, plugins_prefix()));
            }
        }
        lemma_files_not_found(reb, q);
    }
    // the payload is found again: every check of the original scan decides
    // the same way
    assert forall|j: int| 0 <= j < profile.dv().len() implies #[trigger] n1.dv()[j]
        == profile.dv()[j] && (is_pack_dir(profile.dv()[j], pm) == is_pack_dir(
        n1.dv()[j],
        nm,
    )) by {
        assert(n1.dv()[j] == profile.dv()[j]);
        let dir = profile.dv()[j];
        if spec_starts_with(dir, plugins_prefix()) && (dir.len() == 3 || dir.len() == 4) {
            let probe = dir.push(marker_file());
            assert(probe.subrange(0, 2) =~= dir.subrange(0, 2));
            assert(spec_starts_with(probe, plugins_prefix()));
        }
    }
    lemma_find_pack_stable(profile.dv(), n1.dv(), pm, nm, 0, packv);
    // no companion is left to add: whatever the payload carries is at the
    // root now
    assert(packv.push(w).subrange(0, 2) =~= packv.subrange(0, 2));
    assert(packv.push(d).subrange(0, 2) =~= packv.subrange(0, 2));
    assert(spec_starts_with(packv.push(w), plugins_prefix()));
    assert(spec_starts_with(packv.push(d), plugins_prefix()));
    if pm.contains_key(packv.push(w)) {
        lemma_companion_at_root(profile, packv, w, nm);
    }
    if pm.contains_key(packv.push(d)) {
        lemma_companion_at_root(profile, packv, d, nm);
    }
    assert(spec_companion_adds(nm, packv) =~= Seq::<(Seq<Seq<char>>, u64)>::empty());
    // every rebased record of the normalized profile is already merged
    let reb2 = spec_rebase_files(n1.fv(), packv);
    let mid2 = nm.union_prefer_right(files_map_of(spec_companion_adds(nm, packv)));
    assert(files_map_of(spec_companion_adds(nm, packv)) =~= Map::<Seq<Seq<char>>, u64>::empty());
    assert(mid2 =~= nm);
    let kept = crate::mirror::spec_kept_files(profile.fv() + adds, files_map_of(reb));
    assert forall|t: int| 0 <= t < reb2.len() implies !crate::mirror::needs_copy(
        #[trigger] reb2[t],
        mid2,
    ) by {
        lemma_rebase_member(n1.fv(), packv, t);
        let v = choose|v: int|
            0 <= v < n1.fv().len() && spec_starts_with(
                (#[trigger] n1.fv()[v]).0,
                packv.push(runtime_dir()),
            ) && n1.fv()[v].0.skip(k) == reb2[t].0 && n1.fv()[v].1 == reb2[t].1;
        let q = n1.fv()[v].0;
        // the record lies under the payload, hence inside the plugin area
        assert(q.subrange(0, 2) =~= packv.push(runtime_dir()).subrange(0, 2));
        assert(packv.push(runtime_dir()).subrange(0, 2) =~= packv.subrange(0, 2));
        assert(spec_starts_with(q, plugins_prefix()));
        // so it is an original profile record, kept by the merge
        if v < kept.len() {
            lemma_kept_rec_member(profile.fv() + adds, files_map_of(reb), v);
            let u = choose|u: int|
                0 <= u < (profile.fv() + adds).len() && #[trigger] (profile.fv() + adds)[u]
                    == kept[v];
            if u >= profile.fv().len() {
                assert((profile.fv() + adds)[u] == adds[u - profile.fv().len()]);
                assert(adds[u - profile.fv().len()].0 == seq![w] || adds[u - profile.fv().len()].0
                    == seq![d]);
                assert(q.len() >= packv.len() + 1);
                assert(false);
            }
            assert(profile.fv()[u] == n1.fv()[v]);
            lemma_rebase_forward(profile.fv(), packv, u);
            let t2 = choose|t2: int|
                0 <= t2 < reb.len() && #[trigger] reb[t2] == (
                    profile.fv()[u].0.skip(k),
                    profile.fv()[u].1,
                );
            lemma_files_found(reb, t2);
            assert(files_map_of(reb).contains_key(reb2[t].0) && files_map_of(reb)[reb2[t].0]
                == reb2[t].1);
            assert(nm.contains_key(reb2[t].0) && nm[reb2[t].0] == reb2[t].1);
        } else {
            // a record of the merged payload subtree would sit outside the
            // plugin area
            assert(n1.fv()[v] == reb[v - kept.len()]);
            assert(false);
        }
    }
    crate::mirror::lemma_copies_none(reb2, mid2);
    assert(spec_copies(reb2, mid2) == Seq::<(Seq<Seq<char>>, u64)>::empty());
    // and every rebased directory already exists
    let rebd2 = spec_rebase_dirs(n1.dv(), packv);
    let created = crate::mirror::spec_new_dirs(rebd, profile.dir_set());
    assert forall|t: int| 0 <= t < rebd2.len() implies n1.dir_set().contains(
        #[trigger] rebd2[t],
    ) by {
        lemma_rebase_dirs_member(n1.dv(), packv, t);
        let v = choose|v: int|
            0 <= v < n1.dv().len() && spec_starts_with(
                #[trigger] n1.dv()[v],
                packv.push(runtime_dir()),
            ) && n1.dv()[v].skip(k) == rebd2[t];
        let q = n1.dv()[v];
        assert(q.subrange(0, 2) =~= packv.push(runtime_dir()).subrange(0, 2));
        assert(packv.push(runtime_dir()).subrange(0, 2) =~= packv.subrange(0, 2));
        assert(spec_starts_with(q, plugins_prefix()));
        if v < profile.dv().len() {
            assert(q == profile.dv()[v]);
            lemma_rebase_dirs_forward(profile.dv(), packv, v);
            let t2 = choose|t2: int|
                0 <= t2 < rebd.len() && #[trigger] rebd[t2] == profile.dv()[v].skip(k);
            lemma_dirs_found(rebd, t2);
            assert(dirs_set_of(rebd).contains(rebd2[t]));
        } else {
            assert(q == created[v - profile.dv().len()]);
            lemma_new_dirs_member(rebd, profile.dir_set(), v - profile.dv().len());
            let u = choose|u: int| 0 <= u < rebd.len() && #[trigger] rebd[u] == q;
            assert(!spec_starts_with(rebd[u], plugins_prefix()));
            assert(false);
        }
    }
    crate::mirror::lemma_new_dirs_none(rebd2, n1.dir_set());
}

} // verus!
