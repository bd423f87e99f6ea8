//! The JSON value of an edited node tree.
use vstd::prelude::*;
use crate::json::{Json, JsonValue, obj_insert, json_entries_view, entries_insert};
use crate::node::{ConfigNode, NodeKind, KindView, NodeView, nodes_view, node_view, lemma_nodes_view};
use crate::paths::{checked_names, checked_names_exec};

verus! {

/// The entries of the JSON object for `nodes`: each key with the value
/// of its node, inserted one node after another into a map ordered by
/// key (a later duplicate key replaces the earlier value).
pub open spec fn entries_of(nodes: Seq<NodeView>) -> Seq<(Seq<char>, Json)>
    decreases nodes, 0int,
{
    if nodes.len() == 0 {
        Seq::empty()
    } else {
        obj_insert(entries_of(nodes.drop_last()), nodes.last().key, node_json(nodes.last()))
    }
}

/// The object for `nodes`.
pub open spec fn nodes_json(nodes: Seq<NodeView>) -> Json {
    Json::Object(entries_of(nodes))
}

/// The value of a node inside its parent object.
pub open spec fn node_json(n: NodeView) -> Json
    decreases n, 3int,
{
    match n.kind {
        KindView::Struct { .. } => Json::Object(entries_of(n.children)),
        KindView::Option { is_some, .. } => if !is_some {
            Json::Null
        } else if n.children.len() == 1 && n.children[0].key == "value"@ {
            leaf_json(n.children[0])
        } else if n.children.len() > 0 {
            Json::Object(entries_of(n.children))
        } else {
            n.value
        },
        KindView::RadioGroup { .. } => radio_json(n),
        KindView::Checkboxes { .. } => Json::Array(checked_names(n.children)),
        _ => leaf_json(n),
    }
}

/// The value of a single node: a radio group by its selected item, a
/// checkbox list by its checked items, anything else by its stored value.
pub open spec fn leaf_json(n: NodeView) -> Json
    decreases n, 2int,
{
    match n.kind {
        KindView::RadioGroup { .. } => radio_json(n),
        KindView::Checkboxes { .. } => Json::Array(checked_names(n.children)),
        _ => n.value,
    }
}

pub open spec fn is_selected_item(c: NodeView) -> bool {
    c.kind matches KindView::RadioItem { selected: true, .. }
}

pub open spec fn is_struct_item(c: NodeView) -> bool {
    c.kind matches KindView::RadioItem { is_struct: true, .. }
}

/// Index of the first selected radio item among `children`.
pub open spec fn first_selected(children: Seq<NodeView>) -> Option<int> {
    if exists|i: int| 0 <= i < children.len() && is_selected_item(#[trigger] children[i]) {
        Some(
            choose|i: int|
                0 <= i < children.len() && is_selected_item(#[trigger] children[i]) && forall|j: int|
                    0 <= j < i ==> !is_selected_item(#[trigger] children[j]),
        )
    } else {
        None
    }
}

pub proof fn lemma_first_selected(children: Seq<NodeView>, i: int)
    requires
        0 <= i < children.len(),
        is_selected_item(children[i]),
        forall|j: int| 0 <= j < i ==> !is_selected_item(#[trigger] children[j]),
    ensures
        first_selected(children) == Some(i),
{
    let c = choose|c: int|
        0 <= c < children.len() && is_selected_item(#[trigger] children[c]) && forall|j: int|
            0 <= j < c ==> !is_selected_item(#[trigger] children[j]);
    assert(0 <= c < children.len() && is_selected_item(children[c]) && forall|j: int|
        0 <= j < c ==> !is_selected_item(#[trigger] children[j]));
    if c < i {
        assert(!is_selected_item(children[c]));
    } else if i < c {
        assert(!is_selected_item(children[i]));
    }
}

/// Some selected item at or below `w` with no selected item before it.
proof fn least_selected(children: Seq<NodeView>, w: int) -> (k: int)
    requires
        0 <= w < children.len(),
        is_selected_item(children[w]),
    ensures
        0 <= k <= w,
        is_selected_item(children[k]),
        forall|j: int| 0 <= j < k ==> !is_selected_item(#[trigger] children[j]),
    decreases w,
{
    if exists|j: int| 0 <= j < w && is_selected_item(#[trigger] children[j]) {
        let j = choose|j: int| 0 <= j < w && is_selected_item(#[trigger] children[j]);
        least_selected(children, j)
    } else {
        w
    }
}

/// What the first selected item is: the least selected index, or none.
pub proof fn lemma_first_selected_spec(children: Seq<NodeView>)
    ensures
        first_selected(children) matches Some(k) ==> {
            &&& 0 <= k < children.len()
            &&& is_selected_item(children[k])
            &&& forall|j: int| 0 <= j < k ==> !is_selected_item(#[trigger] children[j])
        },
        first_selected(children) is None ==> forall|i: int|
            0 <= i < children.len() ==> !is_selected_item(#[trigger] children[i]),
{
    if exists|i: int| 0 <= i < children.len() && is_selected_item(#[trigger] children[i]) {
        let w = choose|i: int| 0 <= i < children.len() && is_selected_item(#[trigger] children[i]);
        let k = least_selected(children, w);
        lemma_first_selected(children, k);
    }
}

/// The value of a radio group: the selected variant's name for a unit
/// variant, `{name: fields}` for a struct variant (`{name: {}}` when it
/// has no field nodes); the stored value when no item is selected.
pub open spec fn radio_json(n: NodeView) -> Json
    decreases n, 1int,
{
    match first_selected(n.children) {
        Some(k) => if 0 <= k < n.children.len() && is_struct_item(n.children[k]) {
            Json::Object(seq![(n.children[k].key, Json::Object(entries_of(n.children[k].children)))])
        } else {
            Json::Str(n.children[k].key)
        },
        None => n.value,
    }
}

/// The JSON object of `nodes` (see `entries_of`).
pub fn nodes_to_value(nodes: &Vec<ConfigNode>) -> (v: JsonValue)
    ensures
        v@ == nodes_json(nodes_view(nodes@)),
    decreases nodes, 0int,
{
    let ghost nv = nodes_view(nodes@);
    proof {
        lemma_nodes_view(nodes@);
        assert(json_entries_view(Seq::<(String, JsonValue)>::empty()) =~= Seq::<(Seq<char>, Json)>::empty());
        assert(nv.take(0) =~= Seq::<NodeView>::empty());
    }
    let mut map: Vec<(String, JsonValue)> = Vec::new();
    let mut i: usize = 0;
    while i < nodes.len()
        invariant
            i <= nodes@.len(),
            nv == nodes_view(nodes@),
            nv.len() == nodes@.len(),
            forall|j: int| 0 <= j < nodes@.len() ==> #[trigger] nv[j] == node_view(nodes@[j]),
            json_entries_view(map@) == entries_of(nv.take(i as int)),
        decreases nodes@.len() - i,
    {
        proof {
            assert(nv.take(i + 1).drop_last() =~= nv.take(i as int));
            assert(nv.take(i + 1).last() == nv[i as int]);
            assert(decreases_to!(nodes => nodes@));
            assert(decreases_to!(nodes@ => nodes@[i as int]));
        }
        let val = node_json_exec(&nodes[i]);
        entries_insert(&mut map, nodes[i].key.clone(), val);
        i = i + 1;
    }
    proof {
        assert(nv.take(nodes@.len() as int) =~= nv);
    }
    JsonValue::Object(map)
}

/// The value of a node inside its parent object (see `node_json`).
fn node_json_exec(node: &ConfigNode) -> (v: JsonValue)
    ensures
        v@ == node_json(node_view(*node)),
    decreases node, 3int,
{
    proof {
        lemma_nodes_view(node.children@);
        assert(decreases_to!(node => node.children));
    }
    match &node.kind {
        NodeKind::Struct { .. } => nodes_to_value(&node.children),
        NodeKind::Option { is_some, .. } => {
            if !*is_some {
                JsonValue::Null
            } else if node.children.len() == 1 && crate::text::str_eq(node.children[0].key.as_str(), "value") {
                proof {
                    reveal_strlit("value");
                    assert(decreases_to!(node.children => node.children@));
                    assert(decreases_to!(node.children@ => node.children@[0]));
                }
                node_to_value(&node.children[0])
            } else if node.children.len() > 0 {
                nodes_to_value(&node.children)
            } else {
                node.value.deep_clone()
            }
        },
        NodeKind::RadioGroup { .. } => radio_group_to_value(node),
        NodeKind::Checkboxes { .. } => JsonValue::Array(checked_names_exec(&node.children)),
        _ => node_to_value(node),
    }
}

/// The value of a single node (see `leaf_json`).
pub fn node_to_value(node: &ConfigNode) -> (v: JsonValue)
    ensures
        v@ == leaf_json(node_view(*node)),
    decreases node, 2int,
{
    match &node.kind {
        NodeKind::RadioGroup { .. } => radio_group_to_value(node),
        NodeKind::Checkboxes { .. } => JsonValue::Array(checked_names_exec(&node.children)),
        _ => node.value.deep_clone(),
    }
}

/// The value of a radio group (see `radio_json`).
pub fn radio_group_to_value(node: &ConfigNode) -> (v: JsonValue)
    ensures
        v@ == radio_json(node_view(*node)),
    decreases node, 1int,
{
    let ghost cv = nodes_view(node.children@);
    proof {
        lemma_nodes_view(node.children@);
    }
    let mut i: usize = 0;
    while i < node.children.len()
        invariant
            i <= node.children@.len(),
            cv == nodes_view(node.children@),
            cv.len() == node.children@.len(),
            forall|j: int| 0 <= j < node.children@.len() ==> #[trigger] cv[j] == node_view(node.children@[j]),
            forall|j: int| 0 <= j < i ==> !is_selected_item(#[trigger] cv[j]),
        decreases node.children@.len() - i,
    {
        let child = &node.children[i];
        if let NodeKind::RadioItem { selected: true, is_struct } = child.kind {
            proof {
                assert(is_selected_item(cv[i as int]));
                lemma_first_selected(cv, i as int);
                lemma_nodes_view(child.children@);
            }
            if is_struct {
                proof {
                    assert(decreases_to!(node => node.children));
                    assert(decreases_to!(node.children => node.children@));
                    assert(decreases_to!(node.children@ => node.children@[i as int]));
                    assert(decreases_to!(node.children@[i as int] => node.children@[i as int].children));
                }
                let inner = nodes_to_value(&child.children);
                let mut obj: Vec<(String, JsonValue)> = Vec::new();
                obj.push((child.key.clone(), inner));
                proof {
                    assert(obj@.drop_last() =~= Seq::<(String, JsonValue)>::empty());
                    assert(json_entries_view(Seq::<(String, JsonValue)>::empty()) =~= Seq::<(Seq<char>, Json)>::empty());
                }
                return JsonValue::Object(obj);
            }
            return JsonValue::String(child.key.clone());
        }
        proof {
            assert(!is_selected_item(cv[i as int]));
        }
        i = i + 1;
    }
    node.value.deep_clone()
}

} // verus!
