use r2modmac::entry::{FileFilter, Mod, Profile};
use r2modmac::text::{
    clean_mod_name, game_folder_matches, is_disabled, matches_fragment, normalize_for_matching,
    str_contains, str_eq, str_lex_le, strip_version_suffix,
};

#[test]
fn substring_search() {
    assert!(str_contains("hello world", "lo wo"));
    assert!(str_contains("hello", ""));
    assert!(!str_contains("hello", "world"));
    assert!(!str_contains("hi", "hello"));
    assert!(str_contains("aaa", "aa"));
}

#[test]
fn fragment_matching_folds_case() {
    assert!(matches_fragment("AutoSave", "save"));
    assert!(matches_fragment("ABC", "abc"));
    assert!(matches_fragment("ıI", "ıi"));
    assert!(!matches_fragment("MiniMap", "save"));
}

#[test]
fn disabled_list_is_any_fragment() {
    let frags = vec!["save".to_string(), "map".to_string()];
    assert!(is_disabled("AutoSave", &frags));
    assert!(is_disabled("MiniMAP", &frags));
    assert!(!is_disabled("Hookgen", &frags));
    assert!(!is_disabled("anything", &vec![]));
}

#[test]
fn lexicographic_order() {
    assert!(str_lex_le("2023-01-01", "2024-01-01"));
    assert!(!str_lex_le("2024-01-01", "2023-01-01"));
    assert!(str_lex_le("abc", "abc"));
    assert!(str_lex_le("ab", "abc"));
    assert!(!str_lex_le("abc", "ab"));
}

#[test]
fn version_suffix_stripping() {
    assert_eq!(strip_version_suffix("Team-Mod-1.2.3"), "Team-Mod");
    assert_eq!(strip_version_suffix("Team-Mod"), "Team-Mod");
    assert_eq!(strip_version_suffix("Team-Mod-1.2"), "Team-Mod-1.2");
    assert_eq!(strip_version_suffix("Team-Mod-1.2.3.4"), "Team-Mod-1.2.3.4");
    assert_eq!(strip_version_suffix("NoDash"), "NoDash");
    assert_eq!(strip_version_suffix("Team-Mod-10.20.30"), "Team-Mod");
}

#[test]
fn clean_name_strategies() {
    // a well-formed trailing version is stripped outright
    assert_eq!(clean_mod_name("Team-Mod-1.2.3", "9.9.9"), "Team-Mod");
    // otherwise a trailing occurrence of the version itself is stripped
    assert_eq!(clean_mod_name("Team-Mod-1.2", "1.2"), "Team-Mod");
    assert_eq!(clean_mod_name("ModV2", "V2"), "Mod");
    // with neither, the name is unchanged
    assert_eq!(clean_mod_name("Team-Mod", "1.0.0"), "Team-Mod");
}

#[test]
fn normalization_for_fuzzy_matching() {
    assert_eq!(normalize_for_matching("Risk of Rain 2"), "riskofrain2");
    assert_eq!(normalize_for_matching("Lethal-Company!"), "lethalcompany");
    assert_eq!(normalize_for_matching(""), "");
}

#[test]
fn game_folder_matching() {
    assert!(game_folder_matches("Risk of Rain 2", "risk-of-rain-2"));
    assert!(game_folder_matches("Lethal Company", "lethal"));
    assert!(game_folder_matches("lethal", "Lethal Company Demo"));
    assert!(!game_folder_matches("Stardew Valley", "lethal-company"));
}

#[test]
fn string_equality_helper() {
    assert!(str_eq("abc", "abc"));
    assert!(!str_eq("abc", "abd"));
}

#[test]
fn plain_data_carriers_hold_their_fields() {
    let m = Mod { name: "Hookgen".to_string(), version: "1.2.3".to_string(), enabled: true };
    let profile = Profile { id: "p1".to_string(), name: "Main".to_string(), mods: vec![m] };
    assert_eq!(profile.mods.len(), 1);
    assert_eq!(profile.mods[0].name, "Hookgen");
    assert!(profile.mods[0].enabled);
    let filter = FileFilter {
        name: "r2modman Profile".to_string(),
        extensions: vec!["r2z".to_string(), "zip".to_string()],
    };
    assert_eq!(filter.extensions.len(), 2);
}
