use vstd::prelude::*;
use vstd::string::*;
use crate::text::{has_prefix, str_has_prefix};
use crate::jsontree::{parse_store, store_model};

verus! {

// ---------------------------------------------------------------------------
// One discovered bookmark, tagged with the browser and profile it came from.
// ---------------------------------------------------------------------------

#[derive(Debug, Clone)]
pub struct BookmarkItem {
    pub title: String,
    pub url: String,
    pub browser: String,
    pub profile: String,
}

pub ghost struct BookmarkItemView {
    pub title: Seq<char>,
    pub url: Seq<char>,
    pub browser: Seq<char>,
    pub profile: Seq<char>,
}

impl View for BookmarkItem {
    type V = BookmarkItemView;

    open spec fn view(&self) -> BookmarkItemView {
        BookmarkItemView {
            title: self.title@,
            url: self.url@,
            browser: self.browser@,
            profile: self.profile@,
        }
    }
}

pub open spec fn items_view(s: Seq<BookmarkItem>) -> Seq<BookmarkItemView> {
    s.map_values(|b: BookmarkItem| b@)
}

// ---------------------------------------------------------------------------
// A bookmark-store tree has exactly two node kinds: folders and links. NodeV
// is its mathematical form, which the parsing contracts speak of.
// ---------------------------------------------------------------------------

pub enum BookmarkNode {
    Folder { name: String, children: Vec<BookmarkNode> },
    Link { name: String, url: String },
}

pub ghost enum NodeV {
    Folder { name: Seq<char>, children: Seq<NodeV> },
    Link { name: Seq<char>, url: Seq<char> },
}

pub open spec fn node_view(n: BookmarkNode) -> NodeV
    decreases n,
{
    match n {
        BookmarkNode::Folder { name, children } => NodeV::Folder {
            name: name@,
            children: nodes_view(children@),
        },
        BookmarkNode::Link { name, url } => NodeV::Link { name: name@, url: url@ },
    }
}

pub open spec fn nodes_view(s: Seq<BookmarkNode>) -> Seq<NodeV>
    decreases s,
{
    if s.len() == 0 {
        Seq::empty()
    } else {
        nodes_view(s.drop_last()).push(node_view(s.last()))
    }
}

/// A link is kept only when its url starts with a recognized scheme.
pub open spec fn keeps_url(url: Seq<char>) -> bool {
    has_prefix(url, "http"@) || has_prefix(url, "file:"@)
}

/// The records a single tree node contributes, in pre-order, links that fail
/// the scheme filter dropped.
pub open spec fn links_of(
    node: NodeV,
    browser: Seq<char>,
    profile: Seq<char>,
) -> Seq<BookmarkItemView>
    decreases node,
{
    match node {
        NodeV::Link { name, url } => if keeps_url(url) {
            seq![(BookmarkItemView { title: name, url: url, browser: browser, profile: profile })]
        } else {
            Seq::empty()
        },
        NodeV::Folder { name, children } => links_of_seq(children, browser, profile),
    }
}

/// The records a list of sibling nodes contributes, in order.
pub open spec fn links_of_seq(
    nodes: Seq<NodeV>,
    browser: Seq<char>,
    profile: Seq<char>,
) -> Seq<BookmarkItemView>
    decreases nodes,
{
    if nodes.len() == 0 {
        Seq::empty()
    } else {
        links_of_seq(nodes.drop_last(), browser, profile) + links_of(
            nodes.last(),
            browser,
            profile,
        )
    }
}

/// Walk one tree node depth-first and append every kept link as a record.
pub fn collect_node(
    browser: &str,
    profile: &str,
    node: &BookmarkNode,
    out: &mut Vec<BookmarkItem>,
)
    ensures
        items_view(final(out)@) == items_view(old(out)@) + links_of(
            node_view(*node),
            browser@,
            profile@,
        ),
    decreases *node,
{
    match node {
        BookmarkNode::Link { name, url } => {
            if str_has_prefix(url.as_str(), "http") || str_has_prefix(url.as_str(), "file:") {
                let item = BookmarkItem {
                    title: name.clone(),
                    url: url.clone(),
                    browser: browser.to_owned(),
                    profile: profile.to_owned(),
                };
                out.push(item);
                proof {
                    assert(items_view(out@) =~= items_view(old(out)@) + links_of(
                        node_view(*node),
                        browser@,
                        profile@,
                    ));
                }
            } else {
                proof {
                    assert(items_view(out@) =~= items_view(old(out)@) + links_of(
                        node_view(*node),
                        browser@,
                        profile@,
                    ));
                }
            }
        },
        BookmarkNode::Folder { name: _, children } => {
            let n = children.len();
            let mut i: usize = 0;
            while i < n
                invariant
                    *node is Folder,
                    *children == (*node)->Folder_children,
                    n == children@.len(),
                    0 <= i <= n,
                    items_view(out@) == items_view(old(out)@) + links_of_seq(
                        nodes_view(children@.subrange(0, i as int)),
                        browser@,
                        profile@,
                    ),
                decreases n - i,
            {
                proof {
                    assert(decreases_to!(*node => (*node)->Folder_children));
                    assert(decreases_to!(*children => children@));
                    assert(decreases_to!(children@ => children@[i as int]));
                }
                collect_node(browser, profile, &children[i], out);
                i = i + 1;
                proof {
                    let pre = children@.subrange(0, i - 1);
                    let cur = children@.subrange(0, i as int);
                    assert(cur.drop_last() =~= pre);
                    assert(cur.last() == children@[i - 1]);
                    let nv = nodes_view(cur);
                    assert(nv.drop_last() =~= nodes_view(pre));
                    assert(nv.last() == node_view(children@[i - 1]));
                    assert(items_view(out@) =~= items_view(old(out)@) + links_of_seq(
                        nv,
                        browser@,
                        profile@,
                    ));
                }
            }
            proof {
                assert(children@.subrange(0, n as int) =~= children@);
            }
        },
    }
}

// ---------------------------------------------------------------------------
// Scanning store texts into a flat record list.
// ---------------------------------------------------------------------------

/// The text of one candidate bookmark store, tagged with the browser family
/// and profile it belongs to.
pub struct StoreSource {
    pub browser: String,
    pub profile: String,
    pub text: String,
}

pub ghost struct StoreSourceView {
    pub browser: Seq<char>,
    pub profile: Seq<char>,
    pub text: Seq<char>,
}

impl View for StoreSource {
    type V = StoreSourceView;

    open spec fn view(&self) -> StoreSourceView {
        StoreSourceView { browser: self.browser@, profile: self.profile@, text: self.text@ }
    }
}

pub open spec fn sources_view(s: Seq<StoreSource>) -> Seq<StoreSourceView> {
    s.map_values(|x: StoreSource| x@)
}

/// The trees one store text contributes: the root nodes it parses to, or
/// none at all when it is malformed.
pub open spec fn store_trees(text: Seq<char>) -> Seq<NodeV> {
    match store_model(text) {
        Some(ns) => ns,
        None => Seq::empty(),
    }
}

/// The records that a list of sources yields: per source, in order, the
/// flattened kept links of the trees its text parses to, tagged with that
/// source's browser and profile.
pub open spec fn scan_model(sources: Seq<StoreSourceView>) -> Seq<BookmarkItemView>
    decreases sources.len(),
{
    if sources.len() == 0 {
        Seq::empty()
    } else {
        scan_model(sources.drop_last()) + links_of_seq(
            store_trees(sources.last().text),
            sources.last().browser,
            sources.last().profile,
        )
    }
}

/// A source whose text yields no trees — malformed, or holding no roots —
/// contributes nothing: the aggregate equals the scan without it.
pub proof fn lemma_failed_source_is_absent(sources: Seq<StoreSourceView>, i: int)
    requires
        0 <= i < sources.len(),
        store_trees(sources[i].text).len() == 0,
    ensures
        scan_model(sources) == scan_model(sources.remove(i)),
    decreases sources.len(),
{
    if i == sources.len() - 1 {
        assert(sources.remove(i) =~= sources.drop_last());
        assert(links_of_seq(
            store_trees(sources.last().text),
            sources.last().browser,
            sources.last().profile,
        ) =~= Seq::<BookmarkItemView>::empty());
        assert(scan_model(sources) =~= scan_model(sources.drop_last()));
    } else {
        lemma_failed_source_is_absent(sources.drop_last(), i);
        assert(sources.remove(i).drop_last() =~= sources.drop_last().remove(i));
        assert(sources.remove(i).last() == sources.last());
        assert(scan_model(sources.remove(i)) == scan_model(sources.drop_last().remove(i))
            + links_of_seq(
            store_trees(sources.last().text),
            sources.last().browser,
            sources.last().profile,
        ));
    }
}

/// Parse one store text and append every kept link of every root node, each
/// record tagged with the given browser and profile; a text that parses to
/// nothing appends nothing.
pub fn parse_chrome_bookmarks(browser: &str, profile: &str, text: &str, out: &mut Vec<
    BookmarkItem,
>)
    ensures
        items_view(final(out)@) == items_view(old(out)@) + links_of_seq(
            store_trees(text@),
            browser@,
            profile@,
        ),
{
    let parsed = parse_store(text);
    match parsed {
        Some(nodes) => {
            let n = nodes.len();
            let mut i: usize = 0;
            while i < n
                invariant
                    n == nodes@.len(),
                    nodes_view(nodes@) == store_trees(text@),
                    0 <= i <= n,
                    items_view(out@) == items_view(old(out)@) + links_of_seq(
                        nodes_view(nodes@.subrange(0, i as int)),
                        browser@,
                        profile@,
                    ),
                decreases n - i,
            {
                collect_node(browser, profile, &nodes[i], out);
                i = i + 1;
                proof {
                    let pre = nodes@.subrange(0, i - 1);
                    let cur = nodes@.subrange(0, i as int);
                    assert(cur.drop_last() =~= pre);
                    assert(cur.last() == nodes@[i - 1]);
                    let nv = nodes_view(cur);
                    assert(nv.drop_last() =~= nodes_view(pre));
                    assert(nv.last() == node_view(nodes@[i - 1]));
                    assert(items_view(out@) =~= items_view(old(out)@) + links_of_seq(
                        nv,
                        browser@,
                        profile@,
                    ));
                }
            }
            proof {
                assert(nodes@.subrange(0, n as int) =~= nodes@);
            }
        },
        None => {
            proof {
                assert(store_trees(text@) =~= Seq::<NodeV>::empty());
                assert(items_view(out@) =~= items_view(old(out)@) + links_of_seq(
                    Seq::<NodeV>::empty(),
                    browser@,
                    profile@,
                ));
            }
        },
    }
}

/// Aggregate the records of all sources, in source order, exactly as
/// `scan_model` says: a malformed source contributes nothing and never
/// disturbs the others.
pub fn scan_all_browsers(sources: &Vec<StoreSource>) -> (r: Vec<BookmarkItem>)
    ensures
        items_view(r@) == scan_model(sources_view(sources@)),
        sources@.len() == 0 ==> r@.len() == 0,
{
    let mut out: Vec<BookmarkItem> = Vec::new();
    let n = sources.len();
    let mut i: usize = 0;
    while i < n
        invariant
            n == sources@.len(),
            0 <= i <= n,
            items_view(out@) == scan_model(sources_view(sources@.subrange(0, i as int))),
        decreases n - i,
    {
        parse_chrome_bookmarks(
            sources[i].browser.as_str(),
            sources[i].profile.as_str(),
            sources[i].text.as_str(),
            &mut out,
        );
        i = i + 1;
        proof {
            let pre = sources_view(sources@.subrange(0, i - 1));
            let cur = sources_view(sources@.subrange(0, i as int));
            assert(cur.drop_last() =~= pre);
            assert(cur.last() == sources@[i - 1]@);
            assert(items_view(out@) =~= scan_model(cur));
        }
    }
    proof {
        assert(sources_view(sources@.subrange(0, n as int)) =~= sources_view(sources@));
        if sources@.len() == 0 {
            assert(items_view(out@) =~= Seq::<BookmarkItemView>::empty());
            assert(items_view(out@).len() == out@.len());
        }
    }
    out
}

// ---------------------------------------------------------------------------
// Candidate store locations, computed from environment-supplied base paths.
// The caller reads the environment and the directory listings; these
// functions only assemble the expected file paths.
// ---------------------------------------------------------------------------

pub open spec fn joined(base: Seq<char>, suffix: Seq<char>) -> Seq<char> {
    base + suffix
}

pub fn chrome_paths(local_app_data: Option<&str>) -> (r: Option<String>)
    ensures
        (match (local_app_data, r) {
            (Some(base), Some(p)) => p@ == joined(base@, "/Google/Chrome/User Data"@),
            (None, None) => true,
            _ => false,
        }),
{
    match local_app_data {
        Some(base) => Some(base.to_owned().concat("/Google/Chrome/User Data")),
        None => None,
    }
}

pub fn edge_paths(local_app_data: Option<&str>) -> (r: Option<String>)
    ensures
        (match (local_app_data, r) {
            (Some(base), Some(p)) => p@ == joined(base@, "/Microsoft/Edge/User Data"@),
            (None, None) => true,
            _ => false,
        }),
{
    match local_app_data {
        Some(base) => Some(base.to_owned().concat("/Microsoft/Edge/User Data")),
        None => None,
    }
}

pub fn opera_paths(app_data: Option<&str>) -> (r: Option<String>)
    ensures
        (match (app_data, r) {
            (Some(base), Some(p)) => p@ == joined(base@, "/Opera Software/Opera Stable"@),
            (None, None) => true,
            _ => false,
        }),
{
    match app_data {
        Some(base) => Some(base.to_owned().concat("/Opera Software/Opera Stable")),
        None => None,
    }
}

pub fn opera_gx_paths(app_data: Option<&str>) -> (r: Option<String>)
    ensures
        (match (app_data, r) {
            (Some(base), Some(p)) => p@ == joined(base@, "/Opera Software/Opera GX Stable"@),
            (None, None) => true,
            _ => false,
        }),
{
    match app_data {
        Some(base) => Some(base.to_owned().concat("/Opera Software/Opera GX Stable")),
        None => None,
    }
}

pub open spec fn strs_view(s: Seq<String>) -> Seq<Seq<char>> {
    s.map_values(|x: String| x@)
}

pub open spec fn pairs_view(s: Seq<(String, String)>) -> Seq<(Seq<char>, Seq<char>)> {
    s.map_values(|x: (String, String)| (x.0@, x.1@))
}

proof fn lemma_pairs_view_push(s: Seq<(String, String)>, x: (String, String))
    ensures
        pairs_view(s.push(x)) == pairs_view(s).push((x.0@, x.1@)),
{
    assert(pairs_view(s.push(x)) =~= pairs_view(s).push((x.0@, x.1@)));
}

/// The extra per-profile stores under a browser base directory: for each
/// directory entry named like an additional profile, its name and its store
/// file.
pub open spec fn extra_candidates(base: Seq<char>, names: Seq<Seq<char>>) -> Seq<
    (Seq<char>, Seq<char>),
>
    decreases names.len(),
{
    if names.len() == 0 {
        Seq::empty()
    } else {
        extra_candidates(base, names.drop_last()) + (if has_prefix(names.last(), "Profile "@) {
            seq![(names.last(), base + "/"@ + names.last() + "/Bookmarks"@)]
        } else {
            Seq::<(Seq<char>, Seq<char>)>::empty()
        })
    }
}

/// The candidate stores for one browser base directory, each a profile name
/// with its store file: the default profile's store, then one per additional
/// profile directory, in listing order.
pub fn chrome_profile_candidates(base: &str, entries: &Vec<String>) -> (r: Vec<(String, String)>)
    ensures
        pairs_view(r@) == seq![("Default"@, base@ + "/Default/Bookmarks"@)] + extra_candidates(
            base@,
            strs_view(entries@),
        ),
{
    let mut r: Vec<(String, String)> = Vec::new();
    r.push(("Default".to_owned(), base.to_owned().concat("/Default/Bookmarks")));
    let n = entries.len();
    let mut i: usize = 0;
    while i < n
        invariant
            n == entries@.len(),
            0 <= i <= n,
            pairs_view(r@) == seq![("Default"@, base@ + "/Default/Bookmarks"@)]
                + extra_candidates(base@, strs_view(entries@.subrange(0, i as int))),
        decreases n - i,
    {
        if str_has_prefix(entries[i].as_str(), "Profile ") {
            let ghost r0 = r@;
            let item = (
                entries[i].as_str().to_owned(),
                base.to_owned().concat("/").concat(entries[i].as_str()).concat("/Bookmarks"),
            );
            let ghost iv = (item.0@, item.1@);
            r.push(item);
            proof {
                lemma_pairs_view_push(r0, r@.last());
                assert(pairs_view(r@) == pairs_view(r0).push(iv));
            }
        }
        i = i + 1;
        proof {
            let pre = strs_view(entries@.subrange(0, i - 1));
            let cur = strs_view(entries@.subrange(0, i as int));
            assert(cur.drop_last() =~= pre);
            assert(cur.drop_last() == pre);
            assert(cur.last() == entries@[i - 1]@);
            assert(extra_candidates(base@, cur) == extra_candidates(base@, pre) + (if has_prefix(
                entries@[i - 1]@,
                "Profile "@,
            ) {
                seq![(entries@[i - 1]@, base@ + "/"@ + entries@[i - 1]@ + "/Bookmarks"@)]
            } else {
                Seq::<(Seq<char>, Seq<char>)>::empty()
            }));
            assert(pairs_view(r@) =~= seq![("Default"@, base@ + "/Default/Bookmarks"@)]
                + extra_candidates(base@, cur));
        }
    }
    proof {
        assert(strs_view(entries@.subrange(0, n as int)) =~= strs_view(entries@));
    }
    r
}

/// Every store file a watcher should observe, given the two environment base
/// directories; the caller drops the ones that do not exist on disk.
pub fn all_bookmark_files(local_app_data: Option<&str>, app_data: Option<&str>) -> (r: Vec<
    String,
>)
    ensures
        strs_view(r@) == (match local_app_data {
            Some(b) => seq![
                joined(b@, "/Google/Chrome/User Data"@) + "/Default/Bookmarks"@,
                joined(b@, "/Microsoft/Edge/User Data"@) + "/Default/Bookmarks"@,
            ],
            None => Seq::<Seq<char>>::empty(),
        }) + (match app_data {
            Some(b) => seq![
                joined(b@, "/Opera Software/Opera Stable"@) + "/Bookmarks"@,
                joined(b@, "/Opera Software/Opera GX Stable"@) + "/Bookmarks"@,
            ],
            None => Seq::<Seq<char>>::empty(),
        }),
{
    let mut r: Vec<String> = Vec::new();
    if let Some(p) = chrome_paths(local_app_data) {
        r.push(p.concat("/Default/Bookmarks"));
    }
    if let Some(p) = edge_paths(local_app_data) {
        r.push(p.concat("/Default/Bookmarks"));
    }
    if let Some(p) = opera_paths(app_data) {
        r.push(p.concat("/Bookmarks"));
    }
    if let Some(p) = opera_gx_paths(app_data) {
        r.push(p.concat("/Bookmarks"));
    }
    proof {
        assert(strs_view(r@) =~= (match local_app_data {
            Some(b) => seq![
                joined(b@, "/Google/Chrome/User Data"@) + "/Default/Bookmarks"@,
                joined(b@, "/Microsoft/Edge/User Data"@) + "/Default/Bookmarks"@,
            ],
            None => Seq::<Seq<char>>::empty(),
        }) + (match app_data {
            Some(b) => seq![
                joined(b@, "/Opera Software/Opera Stable"@) + "/Bookmarks"@,
                joined(b@, "/Opera Software/Opera GX Stable"@) + "/Bookmarks"@,
            ],
            None => Seq::<Seq<char>>::empty(),
        }));
    }
    r
}

} // verus!
