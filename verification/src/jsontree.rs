use vstd::prelude::*;
use crate::bookmarks::{node_view, nodes_view, BookmarkNode, NodeV};
use crate::text::str_eq;

verus! {

// ---------------------------------------------------------------------------
// Reading a browser's JSON store text into the crate's own tree type. The
// JSON syntax itself is serde_json's work; the shape of a store (a "roots"
// object whose members are trees of "folder" and "url" nodes) is decoded
// here. What a text parses to is named by `json_model_of`, what a parsed
// value holds by `json_of`; the decode below is then exact over that model.
// ---------------------------------------------------------------------------

/// The mathematical form of a JSON document: what the contracts read of a
/// parsed value. A number's magnitude is never read here, so it carries
/// none.
pub ghost enum JsonV {
    Null,
    Bool { b: bool },
    Number,
    Str { s: Seq<char> },
    Arr { items: Seq<JsonV> },
    Obj { entries: Seq<(Seq<char>, JsonV)> },
}

#[verifier::external_type_specification]
#[verifier::external_body]
pub struct ExValue(serde_json::Value);

/// The document a text parses to, if any: parsing is a function of the text
/// alone.
pub uninterp spec fn json_model_of(text: Seq<char>) -> Option<JsonV>;

/// What one parsed JSON value holds.
pub uninterp spec fn json_of(v: serde_json::Value) -> JsonV;

/// Relies on serde_json::from_str: a deterministic parse of the text; any
/// syntax error (or exceeded nesting limit) gives None.
#[verifier::external_body]
fn json_parse(text: &str) -> (r: Option<serde_json::Value>)
    ensures
        r is Some <==> json_model_of(text@) is Some,
        (r matches Some(v) ==> Some(json_of(v)) == json_model_of(text@)),
{
    serde_json::from_str::<serde_json::Value>(text).ok()
}

/// Looking a key up in an object's entries: the first entry under that key.
pub open spec fn obj_get(entries: Seq<(Seq<char>, JsonV)>, key: Seq<char>) -> Option<JsonV>
    decreases entries.len(),
{
    if entries.len() == 0 {
        None
    } else if entries.first().0 == key {
        Some(entries.first().1)
    } else {
        obj_get(entries.drop_first(), key)
    }
}

/// The member of a JSON value under a key: None unless the value is an
/// object holding that key.
pub open spec fn json_get(j: JsonV, key: Seq<char>) -> Option<JsonV> {
    match j {
        JsonV::Obj { entries } => obj_get(entries, key),
        _ => None,
    }
}

/// Relies on serde_json::Value::get: the member of a JSON object under a
/// key; None when the key is absent or the value is not an object.
#[verifier::external_body]
fn value_get<'a>(v: &'a serde_json::Value, key: &str) -> (r: Option<&'a serde_json::Value>)
    ensures
        r is Some <==> json_get(json_of(*v), key@) is Some,
        (r matches Some(c) ==> Some(json_of(*c)) == json_get(json_of(*v), key@)),
{
    v.get(key)
}

/// Relies on serde_json::Value::as_str: the text of a JSON string value;
/// None for any other kind of value.
#[verifier::external_body]
fn value_as_string(v: &serde_json::Value) -> (r: Option<String>)
    ensures
        r is Some <==> json_of(*v) is Str,
        (r matches Some(s) ==> json_of(*v) == (JsonV::Str { s: s@ })),
{
    v.as_str().map(|s| s.to_string())
}

/// Relies on serde_json::Value::as_array: the elements of a JSON array
/// value, in order, each holding its model; None for any other kind.
#[verifier::external_body]
fn value_as_array<'a>(v: &'a serde_json::Value) -> (r: Option<&'a Vec<serde_json::Value>>)
    ensures
        r is Some <==> json_of(*v) is Arr,
        (r matches Some(a) ==> json_of(*v) == (JsonV::Arr {
            items: a@.map_values(|e: serde_json::Value| json_of(e)),
        })),
{
    v.as_array()
}

/// Relies on serde_json::Value::is_null.
#[verifier::external_body]
fn value_is_null(v: &serde_json::Value) -> (r: bool)
    ensures
        r == (json_of(*v) is Null),
{
    v.is_null()
}

// ---------------------------------------------------------------------------
// The decode, first at the model level, then executably against it. The fuel
// bounds the nesting depth; callers pass the text's length in characters,
// which no document's depth can reach, so it never costs a node.
// ---------------------------------------------------------------------------

/// Decode a link node: "name" and "url" must be strings.
pub open spec fn link_of_json(j: JsonV) -> Option<NodeV> {
    match (json_get(j, "name"@), json_get(j, "url"@)) {
        (Some(JsonV::Str { s: name }), Some(JsonV::Str { s: url })) => Some(
            NodeV::Link { name, url },
        ),
        _ => None,
    }
}

/// Decode one tree node: an object whose "type" is "url" or "folder", with a
/// string "name"; a folder's "children", when present and not null, must be
/// an array of nodes, and one bad child fails the whole tree.
pub open spec fn node_of_json(j: JsonV, fuel: nat) -> Option<NodeV>
    decreases fuel, 0int,
{
    if fuel == 0 {
        None
    } else {
        match json_get(j, "type"@) {
            Some(JsonV::Str { s: ty }) => if ty == "url"@ {
                link_of_json(j)
            } else if ty == "folder"@ {
                match json_get(j, "name"@) {
                    Some(JsonV::Str { s: name }) => match json_get(j, "children"@) {
                        None => Some(NodeV::Folder { name, children: Seq::empty() }),
                        Some(JsonV::Null) => Some(
                            NodeV::Folder { name, children: Seq::empty() },
                        ),
                        Some(JsonV::Arr { items }) => match nodes_of_json(
                            items,
                            (fuel - 1) as nat,
                        ) {
                            Some(children) => Some(NodeV::Folder { name, children }),
                            None => None,
                        },
                        Some(_) => None,
                    },
                    _ => None,
                }
            } else {
                None
            },
            _ => None,
        }
    }
}

/// Decode a list of sibling nodes; any failure fails the list.
pub open spec fn nodes_of_json(items: Seq<JsonV>, fuel: nat) -> Option<Seq<NodeV>>
    decreases fuel, items.len() + 1,
{
    if items.len() == 0 {
        Some(Seq::empty())
    } else {
        match (nodes_of_json(items.drop_last(), fuel), node_of_json(items.last(), fuel)) {
            (Some(rest), Some(n)) => Some(rest.push(n)),
            _ => None,
        }
    }
}

/// The trees one member of the "roots" object contributes: none when the
/// member is absent, its decoded node when present.
pub open spec fn root_nodes(roots: JsonV, key: Seq<char>, fuel: nat) -> Option<Seq<NodeV>> {
    match json_get(roots, key) {
        None => Some(Seq::empty()),
        Some(v) => match node_of_json(v, fuel) {
            Some(n) => Some(seq![n]),
            None => None,
        },
    }
}

/// The root-node trees of a store document: the "bookmark_bar", "other" and
/// "synced" members of its "roots" object, in that order.
pub open spec fn store_of_json(doc: JsonV, fuel: nat) -> Option<Seq<NodeV>> {
    match json_get(doc, "roots"@) {
        None => None,
        Some(roots) => match (
            root_nodes(roots, "bookmark_bar"@, fuel),
            root_nodes(roots, "other"@, fuel),
            root_nodes(roots, "synced"@, fuel),
        ) {
            (Some(a), Some(b), Some(c)) => Some(a + b + c),
            _ => None,
        },
    }
}

/// The root-node trees a store text holds: None when it is not JSON or has
/// no decodable store shape.
pub open spec fn store_model(text: Seq<char>) -> Option<Seq<NodeV>> {
    match json_model_of(text) {
        None => None,
        Some(doc) => store_of_json(doc, text.len() as nat),
    }
}

proof fn lemma_nodes_of_json_fail(items: Seq<JsonV>, i: int, fuel: nat)
    requires
        0 <= i < items.len(),
        node_of_json(items[i], fuel) is None,
    ensures
        nodes_of_json(items, fuel) is None,
    decreases items.len(),
{
    if i < items.len() - 1 {
        assert(items.drop_last()[i] == items[i]);
        lemma_nodes_of_json_fail(items.drop_last(), i, fuel);
    }
}

/// Decode one tree node, exactly as `node_of_json` says.
fn node_from_value(v: &serde_json::Value, fuel: usize) -> (r: Option<BookmarkNode>)
    ensures
        (match (r, node_of_json(json_of(*v), fuel as nat)) {
            (Some(n), Some(m)) => node_view(n) == m,
            (None, None) => true,
            _ => false,
        }),
    decreases fuel,
{
    if fuel == 0 {
        return None;
    }
    let ty = match value_get(v, "type") {
        Some(t) => t,
        None => { return None },
    };
    let ty_s = match value_as_string(ty) {
        Some(s) => s,
        None => { return None },
    };
    if str_eq(ty_s.as_str(), "url") {
        let name = match value_get(v, "name") {
            Some(n) => match value_as_string(n) {
                Some(s) => s,
                None => { return None },
            },
            None => { return None },
        };
        let url = match value_get(v, "url") {
            Some(u) => match value_as_string(u) {
                Some(s) => s,
                None => { return None },
            },
            None => { return None },
        };
        Some(BookmarkNode::Link { name, url })
    } else if str_eq(ty_s.as_str(), "folder") {
        let name = match value_get(v, "name") {
            Some(n) => match value_as_string(n) {
                Some(s) => s,
                None => { return None },
            },
            None => { return None },
        };
        let mut children: Vec<BookmarkNode> = Vec::new();
        let ghost j = json_of(*v);
        proof {
            assert(json_get(j, "type"@) == Some(JsonV::Str { s: "folder"@ }));
        }
        match value_get(v, "children") {
            None => {
                proof {
                    assert(node_of_json(j, fuel as nat) == Some(NodeV::Folder {
                        name: name@,
                        children: nodes_view(children@),
                    }));
                }
            },
            Some(cv) => {
                if value_is_null(cv) {
                    proof {
                        assert(node_of_json(j, fuel as nat) == Some(NodeV::Folder {
                            name: name@,
                            children: nodes_view(children@),
                        }));
                    }
                } else {
                    let arr = match value_as_array(cv) {
                        Some(a) => a,
                        None => { return None },
                    };
                    let ghost items = arr@.map_values(|e: serde_json::Value| json_of(e));
                    let n = arr.len();
                    let mut i: usize = 0;
                    while i < n
                        invariant
                            0 <= i <= n,
                            n == arr@.len(),
                            1 <= fuel,
                            j == json_of(*v),
                            json_get(j, "type"@) == Some(JsonV::Str { s: "folder"@ }),
                            "folder"@ != "url"@,
                            json_get(j, "name"@) == Some(JsonV::Str { s: name@ }),
                            json_get(j, "children"@) == Some(JsonV::Arr { items }),
                            items == arr@.map_values(|e: serde_json::Value| json_of(e)),
                            nodes_of_json(items.subrange(0, i as int), (fuel - 1) as nat)
                                == Some(nodes_view(children@)),
                        decreases n - i,
                    {
                        match node_from_value(&arr[i], fuel - 1) {
                            Some(child) => {
                                let ghost pre = children@;
                                children.push(child);
                                proof {
                                    let curi = items.subrange(0, i + 1);
                                    assert(curi.drop_last() =~= items.subrange(0, i as int));
                                    assert(curi.last() == items[i as int]);
                                    assert(items[i as int] == json_of(arr@[i as int]));
                                    assert(children@.drop_last() =~= pre);
                                    assert(children@.last() == child);
                                    assert(nodes_view(children@) == nodes_view(pre).push(
                                        node_view(child),
                                    ));
                                    assert(nodes_of_json(curi, (fuel - 1) as nat) == Some(
                                        nodes_view(children@),
                                    ));
                                }
                            },
                            None => {
                                proof {
                                    assert(items[i as int] == json_of(arr@[i as int]));
                                    lemma_nodes_of_json_fail(items, i as int, (fuel - 1) as nat);
                                    assert(node_of_json(j, fuel as nat) is None);
                                }
                                return None;
                            },
                        }
                        i = i + 1;
                    }
                    proof {
                        assert(items.subrange(0, n as int) =~= items);
                        assert(node_of_json(j, fuel as nat) == Some(NodeV::Folder {
                            name: name@,
                            children: nodes_view(children@),
                        }));
                    }
                }
            },
        }
        let r = Some(BookmarkNode::Folder { name, children });
        proof {
            assert(node_view(r->0) == (NodeV::Folder {
                name: name@,
                children: nodes_view(children@),
            }));
        }
        r
    } else {
        None
    }
}

/// Parse a store text into its root-node trees, exactly as `store_model`
/// says; callers skip a file whose text yields None.
pub fn parse_store(text: &str) -> (r: Option<Vec<BookmarkNode>>)
    ensures
        (match (r, store_model(text@)) {
            (Some(ns), Some(ms)) => nodes_view(ns@) == ms,
            (None, None) => true,
            _ => false,
        }),
{
    let fuel = text.unicode_len();
    let doc = match json_parse(text) {
        Some(d) => d,
        None => { return None },
    };
    let roots = match value_get(&doc, "roots") {
        Some(r) => r,
        None => { return None },
    };
    let ghost rm = json_of(*roots);
    let ghost fm = fuel as nat;
    let mut nodes: Vec<BookmarkNode> = Vec::new();
    if let Some(v) = value_get(roots, "bookmark_bar") {
        match node_from_value(v, fuel) {
            Some(node) => {
                let ghost before = nodes@;
                nodes.push(node);
                proof {
                    assert(nodes@.drop_last() =~= before);
                    assert(nodes@.last() == node);
                    assert(nodes_view(nodes@) == nodes_view(before).push(node_view(node)));
                    assert(root_nodes(rm, "bookmark_bar"@, fm) == Some(seq![node_view(node)]));
                }
            },
            None => { return None },
        }
    }
    proof {
        assert(root_nodes(rm, "bookmark_bar"@, fm) is Some);
        assert(nodes_view(nodes@) =~= root_nodes(rm, "bookmark_bar"@, fm)->0);
    }
    let ghost a = nodes_view(nodes@);
    if let Some(v) = value_get(roots, "other") {
        match node_from_value(v, fuel) {
            Some(node) => {
                let ghost before = nodes@;
                nodes.push(node);
                proof {
                    assert(nodes@.drop_last() =~= before);
                    assert(nodes@.last() == node);
                    assert(nodes_view(nodes@) == nodes_view(before).push(node_view(node)));
                    assert(root_nodes(rm, "other"@, fm) == Some(seq![node_view(node)]));
                }
            },
            None => { return None },
        }
    }
    proof {
        assert(root_nodes(rm, "other"@, fm) is Some);
        assert(nodes_view(nodes@) =~= a + root_nodes(rm, "other"@, fm)->0);
    }
    let ghost ab = nodes_view(nodes@);
    if let Some(v) = value_get(roots, "synced") {
        match node_from_value(v, fuel) {
            Some(node) => {
                let ghost before = nodes@;
                nodes.push(node);
                proof {
                    assert(nodes@.drop_last() =~= before);
                    assert(nodes@.last() == node);
                    assert(nodes_view(nodes@) == nodes_view(before).push(node_view(node)));
                    assert(root_nodes(rm, "synced"@, fm) == Some(seq![node_view(node)]));
                }
            },
            None => { return None },
        }
    }
    proof {
        assert(root_nodes(rm, "synced"@, fm) is Some);
        assert(nodes_view(nodes@) =~= ab + root_nodes(rm, "synced"@, fm)->0);
        assert(nodes_view(nodes@) =~= root_nodes(rm, "bookmark_bar"@, fm)->0 + root_nodes(
            rm,
            "other"@,
            fm,
        )->0 + root_nodes(rm, "synced"@, fm)->0);
        assert(store_model(text@) == Some(nodes_view(nodes@)));
    }
    Some(nodes)
}

} // verus!
