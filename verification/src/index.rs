use vstd::prelude::*;
use crate::bookmarks::{BookmarkItem, BookmarkItemView, items_view};
use crate::text::{contains_sub, lower_of, seq_contains, str_chars, to_lower, trim_str, trimmed};
use crate::translit::{full_translit, initials_translit, to_pinyin};

verus! {

// ---------------------------------------------------------------------------
// One query answer: a record projected out of the index plus its relevance
// score.
// ---------------------------------------------------------------------------

#[derive(Debug, Clone)]
pub struct SearchResultItem {
    pub title: String,
    pub url: String,
    pub browser: String,
    pub profile: String,
    pub score: i32,
}

pub ghost struct SearchResultView {
    pub title: Seq<char>,
    pub url: Seq<char>,
    pub browser: Seq<char>,
    pub profile: Seq<char>,
    pub score: int,
}

impl View for SearchResultItem {
    type V = SearchResultView;

    open spec fn view(&self) -> SearchResultView {
        SearchResultView {
            title: self.title@,
            url: self.url@,
            browser: self.browser@,
            profile: self.profile@,
            score: self.score as int,
        }
    }
}

// ---------------------------------------------------------------------------
// Scoring: four independent substring predicates, each worth a fixed weight.
// ---------------------------------------------------------------------------

/// The relevance score of one record against a normalized query: +120 when
/// the query occurs in the folded title, +80 in the folded url, +70 in a
/// non-empty full transliteration, +60 in non-empty initials.
pub open spec fn score_of(b: BookmarkItemView, ql: Seq<char>) -> int {
    (if contains_sub(lower_of(b.title), ql) {
        120int
    } else {
        0int
    }) + (if contains_sub(lower_of(b.url), ql) {
        80int
    } else {
        0int
    }) + (if full_translit(b.title).len() > 0 && contains_sub(full_translit(b.title), ql) {
        70int
    } else {
        0int
    }) + (if initials_translit(b.title).len() > 0 && contains_sub(
        initials_translit(b.title),
        ql,
    ) {
        60int
    } else {
        0int
    })
}

// ---------------------------------------------------------------------------
// The index: one entry per record with its precomputed matching keys.
// ---------------------------------------------------------------------------

struct IndexedItem {
    item: BookmarkItem,
    title_lower: Vec<char>,
    url_lower: Vec<char>,
    title_pinyin_full: Vec<char>,
    title_pinyin_initials: Vec<char>,
}

spec fn entry_wf(e: IndexedItem) -> bool {
    &&& e.title_lower@ == lower_of(e.item.title@)
    &&& e.url_lower@ == lower_of(e.item.url@)
    &&& e.title_pinyin_full@ == full_translit(e.item.title@)
    &&& e.title_pinyin_initials@ == initials_translit(e.item.title@)
}

fn build_entry(item: BookmarkItem) -> (r: IndexedItem)
    ensures
        entry_wf(r),
        r.item == item,
{
    let tl = to_lower(item.title.as_str());
    let ul = to_lower(item.url.as_str());
    let title_lower = str_chars(tl.as_str());
    let url_lower = str_chars(ul.as_str());
    let tchars = str_chars(item.title.as_str());
    let (full, initials) = to_pinyin(&tchars);
    IndexedItem {
        item,
        title_lower,
        url_lower,
        title_pinyin_full: full,
        title_pinyin_initials: initials,
    }
}

/// One immutable generation of the search structure; its view is the record
/// sequence it was built over. Updates build a fresh index and swap it in
/// whole.
pub struct SearchIndex {
    items: Vec<IndexedItem>,
}

impl View for SearchIndex {
    type V = Seq<BookmarkItemView>;

    closed spec fn view(&self) -> Seq<BookmarkItemView> {
        self.items@.map_values(|e: IndexedItem| e.item@)
    }
}

impl SearchIndex {
    #[verifier::type_invariant]
    spec fn wf(&self) -> bool {
        forall|i: int| 0 <= i < self.items@.len() ==> entry_wf(#[trigger] self.items@[i])
    }

    /// Build an index over the given records; the index's view is exactly the
    /// record sequence, in order.
    pub fn new(items: Vec<BookmarkItem>) -> (r: SearchIndex)
        ensures
            r@ == items_view(items@),
    {
        let ghost orig = items@;
        let mut rest = items;
        let mut entries: Vec<IndexedItem> = Vec::new();
        loop
            invariant
                entries@.len() + rest@.len() == orig.len(),
                rest@ == orig.subrange(entries@.len() as int, orig.len() as int),
                forall|i: int| 0 <= i < entries@.len() ==> entry_wf(#[trigger] entries@[i]),
                forall|i: int|
                    0 <= i < entries@.len() ==> (#[trigger] entries@[i]).item@ == orig[i]@,
            ensures
                rest@.len() == 0,
                entries@.len() == orig.len(),
                forall|i: int| 0 <= i < entries@.len() ==> entry_wf(#[trigger] entries@[i]),
                forall|i: int|
                    0 <= i < entries@.len() ==> (#[trigger] entries@[i]).item@ == orig[i]@,
            decreases rest@.len(),
        {
            if rest.len() == 0 {
                break;
            }
            let it = rest.remove(0);
            proof {
                assert(it == orig[entries@.len() as int]);
            }
            entries.push(build_entry(it));
            proof {
                assert(rest@ =~= orig.subrange(entries@.len() as int, orig.len() as int));
            }
        }
        let r = SearchIndex { items: entries };
        proof {
            assert(r@ =~= items_view(orig));
        }
        r
    }
}

// ---------------------------------------------------------------------------
// Ranking. A hit pairs an entry position with its positive score; surviving
// hits are ordered by descending score, insertion keeping entry order among
// equal scores (a stable sort, written as insertion at spec level so the
// result sequence is pinned exactly).
// ---------------------------------------------------------------------------

pub ghost struct Hit {
    pub pos: int,
    pub score: int,
}

/// The scored entries that survive a query, in entry order.
pub open spec fn hits_of(rs: Seq<BookmarkItemView>, ql: Seq<char>) -> Seq<Hit>
    decreases rs.len(),
{
    if rs.len() == 0 {
        Seq::empty()
    } else {
        hits_of(rs.drop_last(), ql) + (if score_of(rs.last(), ql) > 0 {
            seq![(Hit { pos: rs.len() - 1, score: score_of(rs.last(), ql) })]
        } else {
            Seq::<Hit>::empty()
        })
    }
}

/// Insert a hit after every hit whose score is at least as high.
pub open spec fn insert_hit(s: Seq<Hit>, h: Hit) -> Seq<Hit>
    decreases s.len(),
{
    if s.len() == 0 {
        seq![h]
    } else if h.score > s.first().score {
        seq![h] + s
    } else {
        seq![s.first()] + insert_hit(s.drop_first(), h)
    }
}

/// Stable insertion sort by descending score.
pub open spec fn sort_hits(s: Seq<Hit>) -> Seq<Hit>
    decreases s.len(),
{
    if s.len() == 0 {
        Seq::<Hit>::empty()
    } else {
        insert_hit(sort_hits(s.drop_last()), s.last())
    }
}

/// `a` may stand before `b` in a ranking: a higher score, or an equal score
/// and an earlier entry.
pub open spec fn hit_le(a: Hit, b: Hit) -> bool {
    a.score > b.score || (a.score == b.score && a.pos < b.pos)
}

/// Scores never increase, and equal scores keep entry order.
pub open spec fn ranked_ok(s: Seq<Hit>) -> bool {
    forall|i: int, j: int| 0 <= i < j < s.len() ==> hit_le(#[trigger] s[i], #[trigger] s[j])
}

proof fn lemma_insert_hit_elems(s: Seq<Hit>, h: Hit)
    ensures
        insert_hit(s, h).len() == s.len() + 1,
        forall|k: int|
            0 <= k < insert_hit(s, h).len() ==> (#[trigger] insert_hit(s, h)[k] == h
                || s.contains(insert_hit(s, h)[k])),
    decreases s.len(),
{
    let res = insert_hit(s, h);
    if s.len() == 0 {
    } else if h.score > s.first().score {
        assert forall|k: int| 0 <= k < res.len() implies (#[trigger] res[k] == h || s.contains(
            res[k],
        )) by {
            if k > 0 {
                assert(res[k] == s[k - 1]);
            }
        }
    } else {
        let rest = s.drop_first();
        lemma_insert_hit_elems(rest, h);
        assert forall|k: int| 0 <= k < res.len() implies (#[trigger] res[k] == h || s.contains(
            res[k],
        )) by {
            if k == 0 {
                assert(res[0] == s[0]);
                assert(s.contains(s[0]));
            } else {
                assert(res[k] == insert_hit(rest, h)[k - 1]);
                if insert_hit(rest, h)[k - 1] != h {
                    let idx = choose|idx: int|
                        0 <= idx < rest.len() && rest[idx] == insert_hit(rest, h)[k - 1];
                    assert(s[idx + 1] == rest[idx]);
                    assert(s.contains(s[idx + 1]));
                }
            }
        }
    }
}

proof fn lemma_insert_hit_ranked(s: Seq<Hit>, h: Hit)
    requires
        ranked_ok(s),
        forall|k: int| 0 <= k < s.len() ==> (#[trigger] s[k]).pos < h.pos,
    ensures
        ranked_ok(insert_hit(s, h)),
    decreases s.len(),
{
    let res = insert_hit(s, h);
    if s.len() == 0 {
    } else if h.score > s.first().score {
        assert forall|i: int, j: int| 0 <= i < j < res.len() implies hit_le(
            #[trigger] res[i],
            #[trigger] res[j],
        ) by {
            if i == 0 {
                assert(res[j] == s[j - 1]);
                if j > 1 {
                    assert(hit_le(s[0], s[j - 1]));
                }
            } else {
                assert(res[i] == s[i - 1]);
                assert(res[j] == s[j - 1]);
            }
        }
    } else {
        let rest = s.drop_first();
        assert forall|i: int, j: int| 0 <= i < j < rest.len() implies hit_le(
            #[trigger] rest[i],
            #[trigger] rest[j],
        ) by {
            assert(rest[i] == s[i + 1]);
            assert(rest[j] == s[j + 1]);
        }
        lemma_insert_hit_ranked(rest, h);
        lemma_insert_hit_elems(rest, h);
        let ins = insert_hit(rest, h);
        assert forall|i: int, j: int| 0 <= i < j < res.len() implies hit_le(
            #[trigger] res[i],
            #[trigger] res[j],
        ) by {
            if i == 0 {
                assert(res[0] == s[0]);
                assert(res[j] == ins[j - 1]);
                if ins[j - 1] == h {
                    assert(!(h.score > s[0].score));
                    assert(s[0].pos < h.pos);
                } else {
                    let idx = choose|idx: int| 0 <= idx < rest.len() && rest[idx] == ins[j - 1];
                    assert(s[idx + 1] == rest[idx]);
                    assert(hit_le(s[0], s[idx + 1]));
                }
            } else {
                assert(res[i] == ins[i - 1]);
                assert(res[j] == ins[j - 1]);
            }
        }
    }
}

proof fn lemma_sort_hits(s: Seq<Hit>)
    requires
        forall|i: int, j: int| 0 <= i < j < s.len() ==> (#[trigger] s[i]).pos < (#[trigger] s[j]).pos,
    ensures
        sort_hits(s).len() == s.len(),
        ranked_ok(sort_hits(s)),
        forall|k: int| 0 <= k < sort_hits(s).len() ==> s.contains(#[trigger] sort_hits(s)[k]),
    decreases s.len(),
{
    if s.len() == 0 {
    } else {
        let pre = s.drop_last();
        let h = s.last();
        assert forall|i: int, j: int| 0 <= i < j < pre.len() implies (#[trigger] pre[i]).pos < (
        #[trigger] pre[j]).pos by {
            assert(pre[i] == s[i]);
            assert(pre[j] == s[j]);
        }
        lemma_sort_hits(pre);
        let sp = sort_hits(pre);
        assert forall|k: int| 0 <= k < sp.len() implies (#[trigger] sp[k]).pos < h.pos by {
            let idx = choose|idx: int| 0 <= idx < pre.len() && pre[idx] == sp[k];
            assert(pre[idx] == s[idx]);
            assert(s[idx].pos < s[s.len() - 1].pos);
        }
        lemma_insert_hit_ranked(sp, h);
        lemma_insert_hit_elems(sp, h);
        assert forall|k: int| 0 <= k < sort_hits(s).len() implies s.contains(
            #[trigger] sort_hits(s)[k],
        ) by {
            let e = sort_hits(s)[k];
            if e == h {
                assert(s[s.len() - 1] == h);
                assert(s.contains(s[s.len() - 1]));
            } else {
                assert(sp.contains(e));
                let k2 = choose|k2: int| 0 <= k2 < sp.len() && sp[k2] == e;
                assert(pre.contains(sp[k2]));
                let idx = choose|idx: int| 0 <= idx < pre.len() && pre[idx] == e;
                assert(s[idx] == pre[idx]);
                assert(s.contains(s[idx]));
            }
        }
    }
}

proof fn lemma_hits_elems(rs: Seq<BookmarkItemView>, ql: Seq<char>)
    ensures
        forall|k: int|
            0 <= k < hits_of(rs, ql).len() ==> {
                &&& 0 <= (#[trigger] hits_of(rs, ql)[k]).pos < rs.len()
                &&& hits_of(rs, ql)[k].score == score_of(rs[hits_of(rs, ql)[k].pos], ql)
                &&& hits_of(rs, ql)[k].score > 0
            },
        forall|i: int, j: int|
            0 <= i < j < hits_of(rs, ql).len() ==> (#[trigger] hits_of(rs, ql)[i]).pos < (
            #[trigger] hits_of(rs, ql)[j]).pos,
    decreases rs.len(),
{
    if rs.len() == 0 {
    } else {
        let pre = rs.drop_last();
        lemma_hits_elems(pre, ql);
        assert forall|k: int| 0 <= k < hits_of(pre, ql).len() implies rs[(#[trigger] hits_of(
            pre,
            ql,
        )[k]).pos] == pre[hits_of(pre, ql)[k].pos] by {}
    }
}

// ---------------------------------------------------------------------------
// Query results.
// ---------------------------------------------------------------------------

pub open spec fn result_view(b: BookmarkItemView, score: int) -> SearchResultView {
    SearchResultView {
        title: b.title,
        url: b.url,
        browser: b.browser,
        profile: b.profile,
        score: score,
    }
}

/// The answers to a non-empty normalized query: the surviving hits, stably
/// sorted by descending score, cut to the limit, each projected back to its
/// record.
pub open spec fn results_of(rs: Seq<BookmarkItemView>, ql: Seq<char>, limit: int) -> Seq<
    SearchResultView,
> {
    let sorted = sort_hits(hits_of(rs, ql));
    let cut = if limit < sorted.len() {
        sorted.take(limit)
    } else {
        sorted
    };
    cut.map(|i: int, h: Hit| result_view(rs[h.pos], h.score))
}

/// What a query returns: nothing when the trimmed, case-folded text is
/// empty, the ranked results otherwise.
pub open spec fn query_spec(rs: Seq<BookmarkItemView>, q: Seq<char>, limit: int) -> Seq<
    SearchResultView,
> {
    let ql = lower_of(trimmed(q));
    if ql.len() == 0 {
        Seq::empty()
    } else {
        results_of(rs, ql, limit)
    }
}

// ---------------------------------------------------------------------------
// Laws of querying.
// ---------------------------------------------------------------------------

/// A query whose trimmed, case-folded text is empty returns no results,
/// whatever the index holds and whatever the limit.
pub proof fn lemma_empty_query(rs: Seq<BookmarkItemView>, q: Seq<char>, limit: int)
    requires
        lower_of(trimmed(q)).len() == 0,
    ensures
        query_spec(rs, q, limit).len() == 0,
{
}

/// A query that occurs in a record's folded title scores at least 120; one
/// that also occurs in the record's folded url scores at least 200.
pub proof fn lemma_title_url_score(b: BookmarkItemView, ql: Seq<char>)
    ensures
        contains_sub(lower_of(b.title), ql) ==> score_of(b, ql) >= 120,
        contains_sub(lower_of(b.title), ql) && contains_sub(lower_of(b.url), ql) ==> score_of(
            b,
            ql,
        ) >= 200,
{
}

/// Along the ranked hits of any query, scores never increase, and hits with
/// equal score keep the order their records have in the index.
pub proof fn lemma_ranking_stable(rs: Seq<BookmarkItemView>, ql: Seq<char>, i: int, j: int)
    requires
        0 <= i < j < sort_hits(hits_of(rs, ql)).len(),
    ensures
        sort_hits(hits_of(rs, ql))[i].score >= sort_hits(hits_of(rs, ql))[j].score,
        sort_hits(hits_of(rs, ql))[i].score == sort_hits(hits_of(rs, ql))[j].score ==> sort_hits(
            hits_of(rs, ql),
        )[i].pos < sort_hits(hits_of(rs, ql))[j].pos,
{
    lemma_hits_elems(rs, ql);
    lemma_sort_hits(hits_of(rs, ql));
    assert(hit_le(sort_hits(hits_of(rs, ql))[i], sort_hits(hits_of(rs, ql))[j]));
}

/// In any query's results, scores never increase from one result to the
/// next.
pub proof fn lemma_results_sorted(rs: Seq<BookmarkItemView>, q: Seq<char>, limit: int, i: int, j: int)
    requires
        0 <= limit,
        0 <= i < j < query_spec(rs, q, limit).len(),
    ensures
        query_spec(rs, q, limit)[i].score >= query_spec(rs, q, limit)[j].score,
{
    let ql = lower_of(trimmed(q));
    lemma_hits_elems(rs, ql);
    lemma_sort_hits(hits_of(rs, ql));
    let sorted = sort_hits(hits_of(rs, ql));
    let cut = if limit < sorted.len() {
        sorted.take(limit)
    } else {
        sorted
    };
    assert(cut.len() <= sorted.len());
    assert(cut[i] == sorted[i]);
    assert(cut[j] == sorted[j]);
    assert(hit_le(sorted[i], sorted[j]));
    assert(query_spec(rs, q, limit)[i].score == cut[i].score);
    assert(query_spec(rs, q, limit)[j].score == cut[j].score);
}

/// Rebuilding over one appended record: every earlier record keeps exactly
/// the hit it had, none is duplicated or dropped, and the new record's hit is
/// appended when it matches.
pub proof fn lemma_rebuild_append(rs: Seq<BookmarkItemView>, nr: BookmarkItemView, ql: Seq<char>)
    ensures
        score_of(nr, ql) > 0 ==> hits_of(rs.push(nr), ql) == hits_of(rs, ql).push(
            (Hit { pos: rs.len() as int, score: score_of(nr, ql) }),
        ),
        score_of(nr, ql) <= 0 ==> hits_of(rs.push(nr), ql) == hits_of(rs, ql),
{
    assert(rs.push(nr).drop_last() =~= rs);
    assert(rs.push(nr).last() == nr);
    if score_of(nr, ql) > 0 {
        assert(hits_of(rs.push(nr), ql) =~= hits_of(rs, ql).push(
            (Hit { pos: rs.len() as int, score: score_of(nr, ql) }),
        ));
    } else {
        assert(hits_of(rs.push(nr), ql) =~= hits_of(rs, ql));
    }
}

proof fn lemma_insert_hit_splice(s: Seq<Hit>, h: Hit) -> (j: int)
    ensures
        0 <= j <= s.len(),
        insert_hit(s, h) == s.subrange(0, j) + seq![h] + s.subrange(j, s.len() as int),
    decreases s.len(),
{
    if s.len() == 0 {
        assert(insert_hit(s, h) =~= s.subrange(0, 0) + seq![h] + s.subrange(0, s.len() as int));
        0
    } else if h.score > s.first().score {
        assert(insert_hit(s, h) =~= s.subrange(0, 0) + seq![h] + s.subrange(0, s.len() as int));
        0
    } else {
        let j0 = lemma_insert_hit_splice(s.drop_first(), h);
        assert(insert_hit(s, h) =~= s.subrange(0, j0 + 1) + seq![h] + s.subrange(
            j0 + 1,
            s.len() as int,
        ));
        j0 + 1
    }
}

/// After a rebuild over one appended record that matches the query, and with
/// a limit that cuts nothing off, the results are the old results with the
/// new record's single result spliced in at the returned position: every
/// earlier record keeps its result, in order, none duplicated or dropped.
pub proof fn lemma_rebuild_query(
    rs: Seq<BookmarkItemView>,
    b: BookmarkItemView,
    q: Seq<char>,
    limit: int,
) -> (j: int)
    requires
        lower_of(trimmed(q)).len() > 0,
        score_of(b, lower_of(trimmed(q))) > 0,
        limit >= hits_of(rs.push(b), lower_of(trimmed(q))).len(),
    ensures
        0 <= j <= query_spec(rs, q, limit).len(),
        query_spec(rs.push(b), q, limit) == query_spec(rs, q, limit).subrange(0, j) + seq![
            result_view(b, score_of(b, lower_of(trimmed(q)))),
        ] + query_spec(rs, q, limit).subrange(j, query_spec(rs, q, limit).len() as int),
{
    let ql = lower_of(trimmed(q));
    let h = Hit { pos: rs.len() as int, score: score_of(b, ql) };
    lemma_rebuild_append(rs, b, ql);
    let hits1 = hits_of(rs, ql);
    let hits2 = hits_of(rs.push(b), ql);
    assert(hits2 == hits1.push(h));
    lemma_hits_elems(rs, ql);
    lemma_hits_elems(rs.push(b), ql);
    lemma_sort_hits(hits1);
    lemma_sort_hits(hits2);
    let s1 = sort_hits(hits1);
    let s2 = sort_hits(hits2);
    assert(hits2.drop_last() =~= hits1);
    assert(hits2.last() == h);
    assert(s2 == insert_hit(s1, h));
    let j = lemma_insert_hit_splice(s1, h);
    let r1 = query_spec(rs, q, limit);
    let r2 = query_spec(rs.push(b), q, limit);
    assert(r1.len() == s1.len());
    assert(r2.len() == s2.len());
    assert forall|k: int| 0 <= k < s1.len() implies 0 <= (#[trigger] s1[k]).pos < rs.len()
        && s1[k].score == score_of(rs[s1[k].pos], ql) by {
        let idx = choose|idx: int| 0 <= idx < hits1.len() && hits1[idx] == s1[k];
    }
    assert forall|k: int| 0 <= k < r2.len() implies #[trigger] r2[k] == (r1.subrange(0, j) + seq![
        result_view(b, h.score),
    ] + r1.subrange(j, r1.len() as int))[k] by {
        if k < j {
            assert(s2[k] == s1[k]);
            assert(rs.push(b)[s1[k].pos] == rs[s1[k].pos]);
            assert(r2[k] == result_view(rs.push(b)[s2[k].pos], s2[k].score));
            assert(r1[k] == result_view(rs[s1[k].pos], s1[k].score));
        } else if k == j {
            assert(s2[k] == h);
            assert(rs.push(b)[h.pos] == b);
            assert(r2[k] == result_view(b, h.score));
        } else {
            assert(s2[k] == s1[k - 1]);
            assert(rs.push(b)[s1[k - 1].pos] == rs[s1[k - 1].pos]);
            assert(r2[k] == result_view(rs.push(b)[s2[k].pos], s2[k].score));
            assert(r1[k - 1] == result_view(rs[s1[k - 1].pos], s1[k - 1].score));
        }
    }
    assert(r2 =~= r1.subrange(0, j) + seq![result_view(b, h.score)] + r1.subrange(
        j,
        r1.len() as int,
    ));
    j
}

#[derive(Clone, Copy)]
struct ExHit {
    pos: usize,
    score: i32,
}

spec fn hv(e: ExHit) -> Hit {
    Hit { pos: e.pos as int, score: e.score as int }
}

spec fn hv_seq(s: Seq<ExHit>) -> Seq<Hit> {
    s.map_values(|e: ExHit| hv(e))
}

proof fn lemma_insert_hit_at(s: Seq<Hit>, h: Hit, j: int)
    requires
        0 <= j <= s.len(),
        forall|k: int| 0 <= k < j ==> !(h.score > (#[trigger] s[k]).score),
        j < s.len() ==> h.score > s[j].score,
    ensures
        insert_hit(s, h) == s.subrange(0, j) + seq![h] + s.subrange(j, s.len() as int),
    decreases j,
{
    if j == 0 {
        if s.len() == 0 {
            assert(insert_hit(s, h) =~= s.subrange(0, 0) + seq![h] + s.subrange(
                0,
                s.len() as int,
            ));
        } else {
            assert(h.score > s.first().score);
            assert(insert_hit(s, h) =~= s.subrange(0, 0) + seq![h] + s.subrange(
                0,
                s.len() as int,
            ));
        }
    } else {
        let rest = s.drop_first();
        assert(!(h.score > s[0].score));
        assert forall|k: int| 0 <= k < j - 1 implies !(h.score > (#[trigger] rest[k]).score) by {
            assert(rest[k] == s[k + 1]);
        }
        assert(j - 1 < rest.len() ==> h.score > rest[j - 1].score);
        lemma_insert_hit_at(rest, h, j - 1);
        assert(insert_hit(s, h) =~= s.subrange(0, j) + seq![h] + s.subrange(j, s.len() as int));
    }
}

fn insert_ranked(hits: &mut Vec<ExHit>, h: ExHit)
    ensures
        hv_seq(final(hits)@) == insert_hit(hv_seq(old(hits)@), hv(h)),
{
    let n = hits.len();
    let mut j: usize = 0;
    loop
        invariant
            n == hits@.len(),
            0 <= j <= n,
            forall|k: int| 0 <= k < j ==> !(h.score > (#[trigger] hits@[k]).score),
        ensures
            n == hits@.len(),
            0 <= j <= n,
            forall|k: int| 0 <= k < j ==> !(h.score > (#[trigger] hits@[k]).score),
            j == n || h.score > hits@[j as int].score,
        decreases n - j,
    {
        if j >= n {
            break;
        }
        if h.score > hits[j].score {
            break;
        }
        j = j + 1;
    }
    proof {
        assert forall|k: int| 0 <= k < j implies !(hv(h).score > (#[trigger] hv_seq(hits@)[
        k]).score) by {
            assert(hv_seq(hits@)[k] == hv(hits@[k]));
        }
        assert(j < hits@.len() ==> hv(h).score > hv_seq(hits@)[j as int].score);
        lemma_insert_hit_at(hv_seq(hits@), hv(h), j as int);
        old(hits)@.insert_ensures(j as int, h);
    }
    hits.insert(j, h);
    proof {
        assert(hv_seq(hits@) =~= hv_seq(old(hits)@).subrange(0, j as int) + seq![hv(h)]
            + hv_seq(old(hits)@).subrange(j as int, old(hits)@.len() as int));
    }
}

fn score_entry(e: &IndexedItem, ql: &Vec<char>) -> (score: i32)
    requires
        entry_wf(*e),
    ensures
        score as int == score_of(e.item@, ql@),
        0 <= score <= 330,
{
    let mut score: i32 = 0;
    if seq_contains(&e.title_lower, ql) {
        score = score + 120;
    }
    if seq_contains(&e.url_lower, ql) {
        score = score + 80;
    }
    if e.title_pinyin_full.len() > 0 && seq_contains(&e.title_pinyin_full, ql) {
        score = score + 70;
    }
    if e.title_pinyin_initials.len() > 0 && seq_contains(&e.title_pinyin_initials, ql) {
        score = score + 60;
    }
    score
}

impl SearchIndex {
    /// Answer a query: normalize the text, score every entry, keep the
    /// positive scores, rank them stably by descending score and return at
    /// most `limit` results, exactly as `query_spec` says.
    pub fn query(&self, q: &str, limit: usize) -> (r: Vec<SearchResultItem>)
        ensures
            r@.len() == query_spec(self@, q@, limit as int).len(),
            forall|i: int|
                0 <= i < r@.len() ==> r@[i]@ == query_spec(self@, q@, limit as int)[i],
            r@.len() <= limit,
    {
        proof {
            use_type_invariant(self);
        }
        let tr = trim_str(q);
        let lows = to_lower(tr);
        let ql = str_chars(lows.as_str());
        if ql.len() == 0 {
            return Vec::new();
        }
        let ghost qls = ql@;
        let n = self.items.len();
        let mut hits: Vec<ExHit> = Vec::new();
        let mut i: usize = 0;
        while i < n
            invariant
                self.wf(),
                n == self.items@.len(),
                0 <= i <= n,
                ql@ == qls,
                qls == lower_of(trimmed(q@)),
                qls.len() > 0,
                hv_seq(hits@) == sort_hits(hits_of(self@.take(i as int), qls)),
            decreases n - i,
        {
            let sc = score_entry(&self.items[i], &ql);
            proof {
                assert(self@[i as int] == self.items@[i as int].item@);
            }
            let ghost pre = self@.take(i as int);
            if sc > 0 {
                insert_ranked(&mut hits, ExHit { pos: i, score: sc });
            }
            i = i + 1;
            proof {
                let cur = self@.take(i as int);
                assert(cur.drop_last() =~= pre);
                assert(cur.last() == self@[i - 1]);
                if sc > 0 {
                    assert(hits_of(cur, qls) =~= hits_of(pre, qls).push(
                        Hit { pos: i - 1, score: sc as int },
                    ));
                    let hc = hits_of(cur, qls);
                    assert(hc.drop_last() =~= hits_of(pre, qls));
                    assert(hc.last() == (Hit { pos: i - 1, score: sc as int }));
                    assert(sort_hits(hc) == insert_hit(
                        sort_hits(hits_of(pre, qls)),
                        (Hit { pos: i - 1, score: sc as int }),
                    ));
                } else {
                    assert(hits_of(cur, qls) =~= hits_of(pre, qls));
                }
            }
        }
        proof {
            assert(self@.take(n as int) =~= self@);
        }
        let ghost sorted = sort_hits(hits_of(self@, qls));
        hits.truncate(limit);
        proof {
            lemma_hits_elems(self@, qls);
            lemma_sort_hits(hits_of(self@, qls));
            if limit < sorted.len() {
                assert(hv_seq(hits@) =~= sorted.take(limit as int));
            } else {
                assert(hv_seq(hits@) == sorted);
            }
        }
        let ghost cut = if (limit as int) < sorted.len() {
            sorted.take(limit as int)
        } else {
            sorted
        };
        proof {
            assert(hv_seq(hits@) == cut);
            assert forall|t: int| 0 <= t < cut.len() implies {
                &&& 0 <= (#[trigger] cut[t]).pos < n
                &&& cut[t].score == score_of(self@[cut[t].pos], qls)
            } by {
                if limit < sorted.len() {
                    assert(cut[t] == sorted[t]);
                }
                assert(hits_of(self@, qls).contains(sorted[t]));
                let idx = choose|idx: int|
                    0 <= idx < hits_of(self@, qls).len() && hits_of(self@, qls)[idx] == sorted[t];
            }
        }
        let m = hits.len();
        let mut out: Vec<SearchResultItem> = Vec::new();
        let mut k: usize = 0;
        while k < m
            invariant
                self.wf(),
                n == self.items@.len(),
                m == hits@.len(),
                0 <= k <= m,
                hv_seq(hits@) == cut,
                forall|t: int|
                    0 <= t < cut.len() ==> 0 <= (#[trigger] cut[t]).pos < n && cut[t].score
                        == score_of(self@[cut[t].pos], qls),
                out@.len() == k,
                forall|t: int|
                    0 <= t < k ==> (#[trigger] out@[t])@ == result_view(
                        self@[cut[t].pos],
                        cut[t].score,
                    ),
            decreases m - k,
        {
            proof {
                assert(hv_seq(hits@)[k as int] == hv(hits@[k as int]));
            }
            let pos = hits[k].pos;
            let sc = hits[k].score;
            let e = &self.items[pos];
            proof {
                assert(self@[pos as int] == self.items@[pos as int].item@);
            }
            let item = SearchResultItem {
                title: e.item.title.clone(),
                url: e.item.url.clone(),
                browser: e.item.browser.clone(),
                profile: e.item.profile.clone(),
                score: sc,
            };
            out.push(item);
            k = k + 1;
        }
        proof {
            let spec_r = query_spec(self@, q@, limit as int);
            assert(spec_r == cut.map(|t: int, h: Hit| result_view(self@[h.pos], h.score)));
            assert(out@.len() == spec_r.len());
            assert forall|t: int| 0 <= t < out@.len() implies (#[trigger] out@[t])@ == spec_r[t] by {
                assert(spec_r[t] == result_view(self@[cut[t].pos], cut[t].score));
            }
        }
        out
    }
}

} // verus!
