use r2modmac::deploy::{deploy, enabled_mod_names, next_phase, phase_label, DeployPhase};
use r2modmac::fstree::{FileRec, FsTree};
use r2modmac::mirror::mirror;

fn p(parts: &[&str]) -> Vec<String> {
    parts.iter().map(|s| s.to_string()).collect()
}

fn f(parts: &[&str], size: u64) -> FileRec {
    FileRec { path: p(parts), size }
}

/// A profile with mod folders A, B and C, one file each.
fn profile_abc() -> FsTree {
    FsTree {
        files: vec![
            f(&["BepInEx", "plugins", "A", "a.dll"], 10),
            f(&["BepInEx", "plugins", "B", "b.dll"], 20),
            f(&["BepInEx", "plugins", "C", "c.dll"], 30),
            f(&["BepInEx", "config", "base.cfg"], 5),
        ],
        dirs: vec![
            p(&["BepInEx"]),
            p(&["BepInEx", "plugins"]),
            p(&["BepInEx", "plugins", "A"]),
            p(&["BepInEx", "plugins", "B"]),
            p(&["BepInEx", "plugins", "C"]),
            p(&["BepInEx", "config"]),
        ],
    }
}

fn has_dir(t: &FsTree, parts: &[&str]) -> bool {
    t.has_dir(&p(parts))
}

fn file_size(t: &FsTree, parts: &[&str]) -> Option<u64> {
    t.lookup_file(&p(parts))
}

#[test]
fn mirror_copies_new_and_changed_skips_same() {
    let src = FsTree {
        files: vec![f(&["x.dll"], 100), f(&["sub", "y.dll"], 7), f(&["z.dll"], 1)],
        dirs: vec![p(&["sub"])],
    };
    let dst = FsTree {
        files: vec![f(&["x.dll"], 100), f(&["z.dll"], 2), f(&["keep.txt"], 9)],
        dirs: vec![],
    };
    let out = mirror(&src, &dst);
    // x.dll same size: skipped; y.dll absent: copied; z.dll differs: copied
    assert_eq!(out.copies.len(), 2);
    assert_eq!(out.created.len(), 1);
    assert_eq!(file_size(&out.tree, &["x.dll"]), Some(100));
    assert_eq!(file_size(&out.tree, &["sub", "y.dll"]), Some(7));
    assert_eq!(file_size(&out.tree, &["z.dll"]), Some(1));
    // the mirror never deletes
    assert_eq!(file_size(&out.tree, &["keep.txt"]), Some(9));
    assert!(has_dir(&out.tree, &["sub"]));
}

#[test]
fn mirror_twice_copies_nothing() {
    let src = FsTree {
        files: vec![f(&["a"], 1), f(&["d", "b"], 2)],
        dirs: vec![p(&["d"])],
    };
    let dst = FsTree { files: vec![f(&["a"], 3)], dirs: vec![] };
    let once = mirror(&src, &dst);
    assert_eq!(once.copies.len(), 2);
    let twice = mirror(&src, &once.tree);
    assert_eq!(twice.copies.len(), 0);
    assert_eq!(twice.created.len(), 0);
}

#[test]
fn enabled_names_use_substring_case_insensitive() {
    let profile = profile_abc();
    // "b" disables folder B by case-insensitive substring match
    let enabled = enabled_mod_names(&profile, &vec!["b".to_string()]);
    assert_eq!(enabled, vec!["A".to_string(), "C".to_string()]);
    // a fragment hits every name that contains it
    let enabled = enabled_mod_names(&profile_abc(), &vec![]);
    assert_eq!(enabled.len(), 3);
}

#[test]
fn deploy_makes_target_folders_exactly_enabled_set() {
    let profile = profile_abc();
    // the target holds a stale orphan D and an out-of-date B
    let target = FsTree {
        files: vec![
            f(&["BepInEx", "plugins", "D", "d.dll"], 40),
            f(&["BepInEx", "plugins", "B", "b.dll"], 21),
            f(&["unrelated.txt"], 3),
        ],
        dirs: vec![
            p(&["BepInEx"]),
            p(&["BepInEx", "plugins"]),
            p(&["BepInEx", "plugins", "D"]),
            p(&["BepInEx", "plugins", "B"]),
        ],
    };
    let out = deploy(&profile, &target, &vec!["b".to_string()]);
    assert!(has_dir(&out.target, &["BepInEx", "plugins", "A"]));
    assert!(has_dir(&out.target, &["BepInEx", "plugins", "C"]));
    assert!(!has_dir(&out.target, &["BepInEx", "plugins", "B"]));
    assert!(!has_dir(&out.target, &["BepInEx", "plugins", "D"]));
    // the deleted folders, by name
    assert_eq!(out.removed, vec!["D".to_string(), "B".to_string()]);
    // disabled and orphaned content is gone, enabled content is present
    assert_eq!(file_size(&out.target, &["BepInEx", "plugins", "A", "a.dll"]), Some(10));
    assert_eq!(file_size(&out.target, &["BepInEx", "plugins", "C", "c.dll"]), Some(30));
    assert!(file_size(&out.target, &["BepInEx", "plugins", "B", "b.dll"]).is_none());
    assert!(file_size(&out.target, &["BepInEx", "plugins", "D", "d.dll"]).is_none());
    // the rest of the runtime tree is mirrored in full
    assert_eq!(file_size(&out.target, &["BepInEx", "config", "base.cfg"]), Some(5));
    // files outside the managed tree are untouched
    assert_eq!(file_size(&out.target, &["unrelated.txt"]), Some(3));
}

#[test]
fn deploy_twice_copies_nothing_more() {
    let profile = profile_abc();
    let target = FsTree { files: vec![], dirs: vec![] };
    let first = deploy(&profile, &target, &vec!["b".to_string()]);
    assert!(!first.copies.is_empty());
    let second = deploy(&first.profile, &first.target, &vec!["b".to_string()]);
    // no payload and no root loader files: the second run performs no work
    assert_eq!(second.copies.len(), 0);
    assert_eq!(second.created.len(), 0);
    assert_eq!(second.removed.len(), 0);
    assert_eq!(second.profile_copies.len(), 0);
}

/// A profile whose loader payload sits two levels below the plugin area.
fn profile_with_payload() -> FsTree {
    FsTree {
        files: vec![
            f(&["BepInEx", "plugins", "Pack", "BepInExPack", "winhttp.dll"], 111),
            f(&["BepInEx", "plugins", "Pack", "BepInExPack", "doorstop_config.ini"], 22),
            f(&["BepInEx", "plugins", "Pack", "BepInExPack", "BepInEx", "core", "core.dll"], 333),
            f(&["BepInEx", "plugins", "A", "a.dll"], 10),
        ],
        dirs: vec![
            p(&["BepInEx"]),
            p(&["BepInEx", "plugins"]),
            p(&["BepInEx", "plugins", "Pack"]),
            p(&["BepInEx", "plugins", "Pack", "BepInExPack"]),
            p(&["BepInEx", "plugins", "Pack", "BepInExPack", "BepInEx"]),
            p(&["BepInEx", "plugins", "Pack", "BepInExPack", "BepInEx", "core"]),
            p(&["BepInEx", "plugins", "A"]),
        ],
    }
}

#[test]
fn payload_normalized_into_profile_root() {
    let profile = profile_with_payload();
    let target = FsTree { files: vec![], dirs: vec![] };
    let out = deploy(&profile, &target, &vec![]);
    // the payload was found two levels below the plugin area
    let pack = out.pack.clone().unwrap();
    assert_eq!(pack, p(&["BepInEx", "plugins", "Pack", "BepInExPack"]));
    // the companion files now exist at the profile root
    assert_eq!(file_size(&out.profile, &["winhttp.dll"]), Some(111));
    assert_eq!(file_size(&out.profile, &["doorstop_config.ini"]), Some(22));
    // the payload's runtime subtree was merged into the profile's
    assert_eq!(file_size(&out.profile, &["BepInEx", "core", "core.dll"]), Some(333));
    // and the root loader files were synced into the target
    assert_eq!(file_size(&out.target, &["winhttp.dll"]), Some(111));
    assert_eq!(file_size(&out.target, &["doorstop_config.ini"]), Some(22));
    assert_eq!(file_size(&out.target, &["BepInEx", "core", "core.dll"]), Some(333));
}

#[test]
fn payload_does_not_overwrite_existing_root_files() {
    let mut profile = profile_with_payload();
    profile.files.push(f(&["winhttp.dll"], 7));
    let target = FsTree { files: vec![], dirs: vec![] };
    let out = deploy(&profile, &target, &vec![]);
    // copied only if absent at the root
    assert_eq!(file_size(&out.profile, &["winhttp.dll"]), Some(7));
    assert_eq!(file_size(&out.profile, &["doorstop_config.ini"]), Some(22));
}

#[test]
fn deploy_with_payload_twice_only_resyncs_root_files() {
    let profile = profile_with_payload();
    let target = FsTree { files: vec![], dirs: vec![] };
    let first = deploy(&profile, &target, &vec![]);
    let second = deploy(&first.profile, &first.target, &vec![]);
    // normalization found nothing left to do
    assert_eq!(second.profile_copies.len(), 0);
    assert_eq!(second.removed.len(), 0);
    assert_eq!(second.created.len(), 0);
    // only the unconditional root loader-file sync remains
    assert_eq!(second.copies.len(), 2);
    assert!(second.copies.iter().all(|c| c.path.len() == 1));
}

#[test]
fn deployment_phases_run_in_order() {
    let mut phase = DeployPhase::NormalizingPayload;
    let mut labels: Vec<String> = vec![phase_label(phase)];
    while let Some(next) = next_phase(phase) {
        phase = next;
        labels.push(phase_label(phase));
    }
    assert_eq!(
        labels,
        vec![
            "normalizing payload".to_string(),
            "cleaning orphans".to_string(),
            "copying enabled mods".to_string(),
            "syncing root files".to_string(),
        ]
    );
}

#[test]
fn payload_found_one_level_below_plugins() {
    let profile = FsTree {
        files: vec![
            f(&["BepInEx", "plugins", "LoaderPack", "winhttp.dll"], 44),
            f(&["BepInEx", "plugins", "LoaderPack", "BepInEx", "core", "core.dll"], 55),
        ],
        dirs: vec![
            p(&["BepInEx"]),
            p(&["BepInEx", "plugins"]),
            p(&["BepInEx", "plugins", "LoaderPack"]),
            p(&["BepInEx", "plugins", "LoaderPack", "BepInEx"]),
            p(&["BepInEx", "plugins", "LoaderPack", "BepInEx", "core"]),
        ],
    };
    let target = FsTree { files: vec![], dirs: vec![] };
    let out = deploy(&profile, &target, &vec![]);
    assert_eq!(out.pack.clone().unwrap(), p(&["BepInEx", "plugins", "LoaderPack"]));
    assert_eq!(file_size(&out.profile, &["winhttp.dll"]), Some(44));
    assert_eq!(file_size(&out.profile, &["BepInEx", "core", "core.dll"]), Some(55));
}
