use r2modmac::chunk::{chunk_key, decode_entries, encode_entries, ChunkStore};
use r2modmac::entry::CatalogEntry;
use r2modmac::loader::{decode_index, decompress_chunk, load_fast_path, CatalogError};
use r2modmac::query::{get_packages, lookup_packages_by_names, resolve_name};
use r2modmac::store::CatalogStore;

fn entry(name: &str, full: &str, downloads: u64, rating: i64, date: &str) -> CatalogEntry {
    CatalogEntry {
        name: name.to_string(),
        full_name: full.to_string(),
        downloads,
        rating,
        date_updated: date.to_string(),
    }
}

fn gzip(data: &[u8]) -> Vec<u8> {
    let mut enc = flate2::write::GzEncoder::new(Vec::new(), flate2::Compression::default());
    std::io::Write::write_all(&mut enc, data).unwrap();
    enc.finish().unwrap()
}

#[test]
fn store_append_and_get() {
    let mut store = CatalogStore::new();
    assert!(store.get("lethal-company").is_none());
    store.append("lethal-company", vec![entry("A", "Ns-A", 1, 0, "2024")]);
    let got = store.get("lethal-company").unwrap();
    assert_eq!(got.len(), 1);
    assert_eq!(got[0].name, "A");
    store.append("lethal-company", vec![entry("B", "Ns-B", 2, 0, "2024")]);
    let got = store.get("lethal-company").unwrap();
    assert_eq!(got.len(), 2);
    assert_eq!(got[1].name, "B");
    assert_eq!(store.count("lethal-company"), 2);
    assert_eq!(store.count("other"), 0);
}

#[test]
fn load_twice_counts_non_decreasing() {
    let mut store = CatalogStore::new();
    store.append("game", vec![entry("A", "Ns-A", 1, 0, "2024")]);
    let first = load_fast_path(&store, "game").unwrap();
    // a background chunk lands between the two calls
    store.append("game", vec![entry("B", "Ns-B", 2, 0, "2024")]);
    let second = load_fast_path(&store, "game").unwrap();
    assert!(second >= first);
    assert_eq!(first, 1);
    assert_eq!(second, 2);
}

#[test]
fn fast_path_empty_catalog() {
    let store = CatalogStore::new();
    assert!(load_fast_path(&store, "game").is_none());
}

#[test]
fn chunk_store_round_trip() {
    let mut cache = ChunkStore::new();
    let url = "https://example.org/repository/sha256/0a1b2c3d.json.gz";
    let entries = vec![
        entry("Hookgen", "Ns-Hookgen", 50, 7, "2024-05-01T00:00:00Z"),
        entry("Ärt", "Ns-Ärt", 5, -3, "2023-01-02T03:04:05Z"),
    ];
    cache.save(url, &entries);
    let back = cache.load(url).unwrap();
    assert_eq!(back.len(), 2);
    assert_eq!(back[0].name, "Hookgen");
    assert_eq!(back[0].full_name, "Ns-Hookgen");
    assert_eq!(back[0].downloads, 50);
    assert_eq!(back[0].rating, 7);
    assert_eq!(back[0].date_updated, "2024-05-01T00:00:00Z");
    assert_eq!(back[1].name, "Ärt");
    assert_eq!(back[1].rating, -3);
}

#[test]
fn chunk_store_miss_and_bad_locator() {
    let cache = ChunkStore::new();
    assert!(cache.load("https://example.org/repository/sha256/feed.json.gz").is_none());
    assert!(cache.load("https://example.org/no-hash-here").is_none());
}

#[test]
fn chunk_key_extraction() {
    let k = chunk_key("https://example.org/repository/sha256/0a1b2c3d.json.gz").unwrap();
    assert_eq!(k, "0a1b2c3d");
    assert!(chunk_key("https://example.org/plain").is_none());
}

#[test]
fn codec_rejects_corruption() {
    let entries = vec![entry("A", "Ns-A", 1, 0, "2024")];
    let mut blob = encode_entries(&entries);
    let last = blob.len() - 1;
    blob[last] ^= 0xff;
    // flipping the tail of the last string changes the decoded entry or fails
    match decode_entries(&blob) {
        None => {}
        Some(v) => assert_ne!(v[0].date_updated, "2024"),
    }
    let truncated: Vec<u8> = blob[0..blob.len() - 1].to_vec();
    assert!(decode_entries(&truncated).is_none());
    assert!(decode_entries(&vec![1, 2, 3]).is_none());
}

#[test]
fn index_decoding() {
    let doc = br#"["https://a/sha256/x.json.gz","https://a/sha256/y.json.gz"]"#;
    let packed = gzip(doc);
    let urls = decode_index(&packed).unwrap();
    assert_eq!(urls.len(), 2);
    assert_eq!(urls[0], "https://a/sha256/x.json.gz");
    // not gzip at all
    assert_eq!(decode_index(&vec![0, 1, 2]).unwrap_err(), CatalogError::Index);
    // gzip of something that is not a string array
    let bad = gzip(br#"{"not":"an array"}"#);
    assert_eq!(decode_index(&bad).unwrap_err(), CatalogError::Index);
}

#[test]
fn chunk_decompression() {
    let packed = gzip(b"hello chunk");
    assert_eq!(decompress_chunk(&packed).unwrap(), b"hello chunk".to_vec());
    assert_eq!(decompress_chunk(&vec![9, 9, 9]).unwrap_err(), CatalogError::Format);
}

#[test]
fn pagination_boundaries() {
    let mut store = CatalogStore::new();
    store.append(
        "game",
        vec![
            entry("A", "Ns-A", 1, 0, "2024"),
            entry("B", "Ns-B", 2, 0, "2024"),
            entry("C", "Ns-C", 3, 0, "2024"),
        ],
    );
    // page past the end is the defined end-of-results signal
    let empty = get_packages(&store, "game", 2, 2, "", &None);
    assert!(empty.is_empty());
    // ceil(3 / 2) = 2 pages; page index 2 is empty
    let all = get_packages(&store, "game", 0, 3, "", &None);
    assert_eq!(all.len(), 3);
    assert_eq!(all[0].name, "A");
    assert_eq!(all[1].name, "B");
    assert_eq!(all[2].name, "C");
    let second = get_packages(&store, "game", 1, 2, "", &None);
    assert_eq!(second.len(), 1);
    assert_eq!(second[0].name, "C");
}

#[test]
fn sort_by_downloads_descending() {
    let mut store = CatalogStore::new();
    store.append(
        "game",
        vec![
            entry("A", "Ns-A", 5, 0, "2024"),
            entry("B", "Ns-B", 50, 0, "2024"),
            entry("C", "Ns-C", 1, 0, "2024"),
        ],
    );
    let sorted = get_packages(&store, "game", 0, 10, "", &Some("downloads".to_string()));
    let downloads: Vec<u64> = sorted.iter().map(|e| e.downloads).collect();
    assert_eq!(downloads, vec![50, 5, 1]);
}

#[test]
fn sort_by_rating_and_updated_and_name() {
    let mut store = CatalogStore::new();
    store.append(
        "game",
        vec![
            entry("beta", "Ns-beta", 0, 1, "2023-01-01"),
            entry("Alpha", "Ns-Alpha", 0, 9, "2025-01-01"),
            entry("gamma", "Ns-gamma", 0, 4, "2024-01-01"),
        ],
    );
    let by_rating = get_packages(&store, "game", 0, 10, "", &Some("rating".to_string()));
    let ratings: Vec<i64> = by_rating.iter().map(|e| e.rating).collect();
    assert_eq!(ratings, vec![9, 4, 1]);
    let by_updated = get_packages(&store, "game", 0, 10, "", &Some("updated".to_string()));
    assert_eq!(by_updated[0].date_updated, "2025-01-01");
    assert_eq!(by_updated[2].date_updated, "2023-01-01");
    let by_name = get_packages(&store, "game", 0, 10, "", &Some("alphabetical".to_string()));
    let names: Vec<String> = by_name.iter().map(|e| e.name.clone()).collect();
    assert_eq!(names, vec!["Alpha", "beta", "gamma"]);
}

#[test]
fn unknown_sort_keeps_filtered_order() {
    let mut store = CatalogStore::new();
    store.append(
        "game",
        vec![entry("B", "Ns-B", 2, 0, "2024"), entry("A", "Ns-A", 1, 0, "2024")],
    );
    let r = get_packages(&store, "game", 0, 10, "", &Some("bogus".to_string()));
    assert_eq!(r[0].name, "B");
    assert_eq!(r[1].name, "A");
}

#[test]
fn search_is_case_insensitive_substring() {
    let mut store = CatalogStore::new();
    store.append(
        "game",
        vec![
            entry("AutoSave", "Team-AutoSave", 1, 0, "2024"),
            entry("MiniMap", "Team-MiniMap", 2, 0, "2024"),
        ],
    );
    let hits = get_packages(&store, "game", 0, 10, "autosave", &None);
    assert_eq!(hits.len(), 1);
    assert_eq!(hits[0].name, "AutoSave");
    // qualified name matches too
    let hits = get_packages(&store, "game", 0, 10, "TEAM-MINI", &None);
    assert_eq!(hits.len(), 1);
    assert_eq!(hits[0].name, "MiniMap");
    let none = get_packages(&store, "game", 0, 10, "zzz", &None);
    assert!(none.is_empty());
}

#[test]
fn query_on_unknown_catalog_is_empty() {
    let store = CatalogStore::new();
    assert!(get_packages(&store, "missing", 0, 10, "", &None).is_empty());
}

#[test]
fn lookup_by_names_resolves_and_reports_unknown() {
    let mut store = CatalogStore::new();
    store.append(
        "game",
        vec![
            entry("Hookgen", "Team-Hookgen", 1, 0, "2024"),
            entry("MiniMap", "Team-MiniMap", 2, 0, "2024"),
        ],
    );
    let names = vec![
        "Team-Hookgen-1.2.3".to_string(),
        "team-minimap".to_string(),
        "Team-Missing-9.9.9".to_string(),
    ];
    let (found, unknown) = lookup_packages_by_names(&store, "game", &names);
    assert_eq!(found.len(), 2);
    assert_eq!(found[0].full_name, "Team-Hookgen");
    assert_eq!(found[1].full_name, "Team-MiniMap");
    assert_eq!(unknown, vec!["Team-Missing-9.9.9".to_string()]);
}

#[test]
fn resolve_single_name_from_cache() {
    let entries = vec![entry("Hookgen", "Team-Hookgen", 1, 0, "2024")];
    let hit = resolve_name(&entries, "TEAM-HOOKGEN-2.0.1").unwrap();
    assert_eq!(hit.full_name, "Team-Hookgen");
    assert!(resolve_name(&entries, "Other-Mod").is_none());
}

#[test]
fn sort_is_stable_on_equal_keys() {
    let mut store = CatalogStore::new();
    store.append(
        "game",
        vec![
            entry("first", "Ns-first", 7, 0, "2024"),
            entry("second", "Ns-second", 7, 0, "2024"),
            entry("third", "Ns-third", 9, 0, "2024"),
        ],
    );
    let sorted = get_packages(&store, "game", 0, 10, "", &Some("downloads".to_string()));
    let names: Vec<String> = sorted.iter().map(|e| e.name.clone()).collect();
    // ties keep their original relative order
    assert_eq!(names, vec!["third", "first", "second"]);
}
