use bookmark_launcher::bookmarks::{
    all_bookmark_files, chrome_paths, chrome_profile_candidates, edge_paths, opera_gx_paths,
    opera_paths, scan_all_browsers, StoreSource,
};
use bookmark_launcher::index::SearchIndex;
use bookmark_launcher::watch::{should_trigger_rebuild, FileEventKind};

fn store_json() -> String {
    r#"{"roots":{"bookmark_bar":{"type":"folder","name":"Bar","children":[{"type":"url","name":"GitHub","url":"https://github.com"},{"type":"folder","name":"Deep","children":[{"type":"url","name":"Docs","url":"https://docs.rs"}]},{"type":"url","name":"Notes","url":"ftp://example.com"}]},"other":{"type":"url","name":"Local","url":"file:///tmp/x.html"}}}"#.to_string()
}

fn source(browser: &str, text: String) -> StoreSource {
    StoreSource {
        browser: browser.to_string(),
        profile: "Default".to_string(),
        text,
    }
}

#[test]
fn scan_flattens_tree_in_preorder_and_filters_schemes() {
    let items = scan_all_browsers(&vec![source("Chrome", store_json())]);
    // "Notes" has an unrecognized scheme and is dropped; folders recurse.
    assert_eq!(items.len(), 3);
    assert_eq!(items[0].title, "GitHub");
    assert_eq!(items[0].url, "https://github.com");
    assert_eq!(items[0].browser, "Chrome");
    assert_eq!(items[0].profile, "Default");
    assert_eq!(items[1].title, "Docs");
    assert_eq!(items[2].title, "Local");
    assert_eq!(items[2].url, "file:///tmp/x.html");
}

#[test]
fn scan_with_no_sources_is_empty() {
    let items = scan_all_browsers(&Vec::new());
    assert!(items.is_empty());
}

#[test]
fn malformed_source_is_skipped_like_an_absent_one() {
    let bad = source("Chrome", "{not valid json at all".to_string());
    let only_good = scan_all_browsers(&vec![source("Edge", store_json())]);
    let with_bad = scan_all_browsers(&vec![bad, source("Edge", store_json())]);
    assert_eq!(with_bad.len(), only_good.len());
    for (a, b) in with_bad.iter().zip(only_good.iter()) {
        assert_eq!(a.title, b.title);
        assert_eq!(a.url, b.url);
        assert_eq!(a.browser, b.browser);
    }
}

#[test]
fn wrong_shape_source_is_skipped() {
    // Valid JSON, but no "roots" object.
    let items = scan_all_browsers(&vec![source("Chrome", r#"{"version":1}"#.to_string())]);
    assert!(items.is_empty());
    // A node with an unknown type fails its whole file.
    let odd = r#"{"roots":{"other":{"type":"widget","name":"x"}}}"#.to_string();
    assert!(scan_all_browsers(&vec![source("Chrome", odd)]).is_empty());
}

#[test]
fn deeply_nested_folders_lose_no_links() {
    let mut open = String::new();
    let mut close = String::new();
    for _ in 0..60 {
        open.push_str(r#"{"type":"folder","name":"d","children":["#);
        close.push_str("]}");
    }
    let mut text = String::from(r#"{"roots":{"bookmark_bar":"#);
    text.push_str(&open);
    text.push_str(r#"{"type":"url","name":"DeepLink","url":"https://deep.example"}"#);
    text.push_str(&close);
    text.push_str("}}");
    let items = scan_all_browsers(&vec![source("Chrome", text)]);
    assert_eq!(items.len(), 1);
    assert_eq!(items[0].title, "DeepLink");
}

#[test]
fn folder_without_children_contributes_nothing() {
    let text = r#"{"roots":{"bookmark_bar":{"type":"folder","name":"empty"}}}"#.to_string();
    let items = scan_all_browsers(&vec![source("Chrome", text)]);
    assert!(items.is_empty());
}

#[test]
fn null_children_mean_an_empty_folder() {
    // A folder whose "children" is null is an empty folder, not a failure:
    // the sibling root's link still comes through.
    let text = r#"{"roots":{"bookmark_bar":{"type":"folder","name":"b","children":null},"other":{"type":"url","name":"Kept","url":"https://kept.example"}}}"#.to_string();
    let items = scan_all_browsers(&vec![source("Chrome", text)]);
    assert_eq!(items.len(), 1);
    assert_eq!(items[0].title, "Kept");
}

#[test]
fn non_ascii_alphanumerics_pass_through_transliteration() {
    let items = scan_all_browsers(&vec![source(
        "Chrome",
        r#"{"roots":{"other":{"type":"url","name":"Москва","url":"https://city.example"}}}"#
            .to_string(),
    )]);
    let idx = SearchIndex::new(items);
    // Cyrillic letters have no romanization but are alphanumeric, so the
    // case-folded title also fills both transliteration keys.
    let r = idx.query("МОСКВА", 10);
    assert_eq!(r.len(), 1);
    assert_eq!(r[0].score, 250);
}

#[test]
fn scanned_records_are_queryable() {
    let items = scan_all_browsers(&vec![source("Chrome", store_json())]);
    let idx = SearchIndex::new(items);
    let r = idx.query("docs", 10);
    assert_eq!(r.len(), 1);
    assert_eq!(r[0].title, "Docs");
    assert_eq!(r[0].score, 330);
}

#[test]
fn browser_base_paths_join_the_expected_suffixes() {
    assert_eq!(
        chrome_paths(Some("C:/U/a/Local")).as_deref(),
        Some("C:/U/a/Local/Google/Chrome/User Data")
    );
    assert_eq!(
        edge_paths(Some("C:/U/a/Local")).as_deref(),
        Some("C:/U/a/Local/Microsoft/Edge/User Data")
    );
    assert_eq!(
        opera_paths(Some("C:/U/a/Roaming")).as_deref(),
        Some("C:/U/a/Roaming/Opera Software/Opera Stable")
    );
    assert_eq!(
        opera_gx_paths(Some("C:/U/a/Roaming")).as_deref(),
        Some("C:/U/a/Roaming/Opera Software/Opera GX Stable")
    );
    assert_eq!(chrome_paths(None), None);
    assert_eq!(edge_paths(None), None);
    assert_eq!(opera_paths(None), None);
    assert_eq!(opera_gx_paths(None), None);
}

#[test]
fn profile_candidates_keep_default_and_profile_dirs() {
    let entries = vec![
        "Profile 1".to_string(),
        "Crashpad".to_string(),
        "Profile 12".to_string(),
    ];
    let files = chrome_profile_candidates("base", &entries);
    assert_eq!(
        files,
        vec![
            ("Default".to_string(), "base/Default/Bookmarks".to_string()),
            ("Profile 1".to_string(), "base/Profile 1/Bookmarks".to_string()),
            ("Profile 12".to_string(), "base/Profile 12/Bookmarks".to_string()),
        ]
    );
}

#[test]
fn records_carry_their_source_profile() {
    let mut src = source("Chrome", store_json());
    src.profile = "Profile 2".to_string();
    let items = scan_all_browsers(&vec![src]);
    assert_eq!(items.len(), 3);
    for it in &items {
        assert_eq!(it.profile, "Profile 2");
        assert_eq!(it.browser, "Chrome");
    }
}

#[test]
fn watch_list_covers_all_browsers() {
    let files = all_bookmark_files(Some("L"), Some("R"));
    assert_eq!(
        files,
        vec![
            "L/Google/Chrome/User Data/Default/Bookmarks".to_string(),
            "L/Microsoft/Edge/User Data/Default/Bookmarks".to_string(),
            "R/Opera Software/Opera Stable/Bookmarks".to_string(),
            "R/Opera Software/Opera GX Stable/Bookmarks".to_string(),
        ]
    );
    assert!(all_bookmark_files(None, None).is_empty());
}

#[test]
fn create_modify_and_remove_trigger_rebuilds() {
    assert!(should_trigger_rebuild(&FileEventKind::Create));
    assert!(should_trigger_rebuild(&FileEventKind::Modify));
    assert!(should_trigger_rebuild(&FileEventKind::Remove));
    assert!(!should_trigger_rebuild(&FileEventKind::Other));
}
