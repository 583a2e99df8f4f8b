use bookmark_launcher::bookmarks::BookmarkItem;
use bookmark_launcher::index::SearchIndex;

fn item(title: &str, url: &str, browser: &str, profile: &str) -> BookmarkItem {
    BookmarkItem {
        title: title.to_string(),
        url: url.to_string(),
        browser: browser.to_string(),
        profile: profile.to_string(),
    }
}

fn two_git_records() -> Vec<BookmarkItem> {
    vec![
        item("GitHub", "https://github.com", "Chrome", "Default"),
        item("Gitee 码云", "https://gitee.com", "Edge", "Default"),
    ]
}

#[test]
fn git_query_returns_both_in_insertion_order() {
    let idx = SearchIndex::new(two_git_records());
    let r = idx.query("git", 10);
    assert_eq!(r.len(), 2);
    assert_eq!(r[0].title, "GitHub");
    assert_eq!(r[0].browser, "Chrome");
    assert_eq!(r[1].title, "Gitee 码云");
    assert_eq!(r[1].browser, "Edge");
    // "git" occurs in the folded title (+120), the folded url (+80), the
    // full transliteration (+70) and the initials (+60) of both records.
    assert_eq!(r[0].score, 330);
    assert_eq!(r[1].score, 330);
    assert_eq!(r[0].score, r[1].score);
}

#[test]
fn empty_query_returns_nothing() {
    let idx = SearchIndex::new(two_git_records());
    assert!(idx.query("", 10).is_empty());
}

#[test]
fn whitespace_query_returns_nothing() {
    let idx = SearchIndex::new(two_git_records());
    assert!(idx.query("   \t  ", 10).is_empty());
}

#[test]
fn query_is_trimmed_and_folded() {
    let idx = SearchIndex::new(two_git_records());
    let r = idx.query("  GIT  ", 10);
    assert_eq!(r.len(), 2);
    assert_eq!(r[0].score, 330);
}

#[test]
fn zh_query_matches_nothing() {
    let idx = SearchIndex::new(two_git_records());
    assert!(idx.query("zh", 10).is_empty());
}

#[test]
fn limit_truncates_results() {
    let idx = SearchIndex::new(two_git_records());
    let r = idx.query("git", 1);
    assert_eq!(r.len(), 1);
    assert_eq!(r[0].title, "GitHub");
    assert!(idx.query("git", 0).is_empty());
}

#[test]
fn pinyin_full_form_matches() {
    let idx = SearchIndex::new(two_git_records());
    // 码云 transliterates to "mayun"; it occurs in no title or url.
    let r = idx.query("mayun", 10);
    assert_eq!(r.len(), 1);
    assert_eq!(r[0].title, "Gitee 码云");
    assert_eq!(r[0].score, 70);
}

#[test]
fn pinyin_initials_match() {
    let idx = SearchIndex::new(two_git_records());
    // The initials of "Gitee 码云" are "giteemy".
    let r = idx.query("emy", 10);
    assert_eq!(r.len(), 1);
    assert_eq!(r[0].title, "Gitee 码云");
    assert_eq!(r[0].score, 60);
}

#[test]
fn url_only_match_scores_eighty() {
    let items = vec![item("Reader", "https://news.example.com", "Chrome", "Default")];
    let idx = SearchIndex::new(items);
    let r = idx.query("news", 10);
    assert_eq!(r.len(), 1);
    assert_eq!(r[0].score, 80);
}

#[test]
fn title_only_match_scores_over_title_and_translit() {
    // A non-ASCII title whose transliteration differs from the folded title:
    // the query hits the title only.
    let items = vec![item("知乎", "https://example.com", "Chrome", "Default")];
    let idx = SearchIndex::new(items);
    let r = idx.query("知乎", 10);
    assert_eq!(r.len(), 1);
    assert_eq!(r[0].score, 120);
    // And "zhihu" hits the full transliteration only.
    let r2 = idx.query("zhihu", 10);
    assert_eq!(r2.len(), 1);
    assert_eq!(r2[0].score, 70);
    // And "zh" hits both the full transliteration and the initials.
    let r3 = idx.query("zh", 10);
    assert_eq!(r3.len(), 1);
    assert_eq!(r3[0].score, 130);
}

#[test]
fn title_and_url_match_scores_two_hundred() {
    // The transliteration of the title is "zhihu", which the query misses:
    // only the title (+120) and url (+80) predicates hold.
    let items = vec![item("知乎", "https://知乎.example/page", "Chrome", "Default")];
    let idx = SearchIndex::new(items);
    let r = idx.query("知乎", 10);
    assert_eq!(r.len(), 1);
    assert_eq!(r[0].score, 200);
}

#[test]
fn sorted_by_descending_score_stable_on_ties() {
    let items = vec![
        item("alpha", "https://one.test", "Chrome", "Default"),
        item("thing", "https://alpha.test", "Chrome", "Default"),
        item("alpha two", "https://two.test", "Edge", "Default"),
    ];
    let idx = SearchIndex::new(items);
    let r = idx.query("alpha", 10);
    // First and third match in title and transliterations; the second in
    // url only.
    assert_eq!(r.len(), 3);
    assert_eq!(r[0].title, "alpha");
    assert_eq!(r[1].title, "alpha two");
    assert_eq!(r[2].title, "thing");
    assert!(r[0].score >= r[1].score);
    assert_eq!(r[0].score, r[1].score);
    assert!(r[1].score > r[2].score);
    assert_eq!(r[2].score, 80);
}

#[test]
fn rebuild_with_appended_record_keeps_and_extends_matches() {
    let mut records = two_git_records();
    let idx1 = SearchIndex::new(records.clone());
    let before = idx1.query("git", 10);
    records.push(item("Git docs", "https://git-scm.com", "Opera", "Default"));
    let idx2 = SearchIndex::new(records);
    let after = idx2.query("git", 10);
    assert_eq!(after.len(), before.len() + 1);
    for (a, b) in before.iter().zip(after.iter()) {
        assert_eq!(a.title, b.title);
        assert_eq!(a.url, b.url);
        assert_eq!(a.score, b.score);
    }
    assert_eq!(after[2].title, "Git docs");
}
