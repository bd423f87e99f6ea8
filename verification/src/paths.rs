//! Changing the node tree at a dotted path.
//!
//! A path is split at its dots into parts. The first part names a
//! top-level node, the next part one of its children, and so on; at each
//! level the first node with that key is taken. A path that names no node
//! changes nothing.
use vstd::prelude::*;
use crate::json::{Json, JsonValue, json_seq_view, json_view, json_entries_view, get_object, json_as_object};
use crate::node::{
    ConfigNode, NodeKind, KindView, NodeView, nodes_view, node_view, lemma_nodes_view, lemma_nodes_view_ext,
    strs_view, Entries, DEPTH_CAP, built_children, default_value, default_value_for_schema, get_object_exec,
    build_tree_from_properties, ev,
};
use crate::text::{str_eq, string_of, split_dots, split_dots_exec};

verus! {

/// Index of the first node of `nodes` whose key is `k`.
pub open spec fn key_index(nodes: Seq<NodeView>, k: Seq<char>) -> Option<int> {
    if exists|i: int| 0 <= i < nodes.len() && (#[trigger] nodes[i]).key == k {
        Some(
            choose|i: int|
                0 <= i < nodes.len() && (#[trigger] nodes[i]).key == k && forall|j: int|
                    0 <= j < i ==> (#[trigger] nodes[j]).key != k,
        )
    } else {
        None
    }
}

pub proof fn lemma_key_index(nodes: Seq<NodeView>, k: Seq<char>, i: int)
    requires
        0 <= i < nodes.len(),
        nodes[i].key == k,
        forall|j: int| 0 <= j < i ==> (#[trigger] nodes[j]).key != k,
    ensures
        key_index(nodes, k) == Some(i),
{
    let c = choose|c: int|
        0 <= c < nodes.len() && (#[trigger] nodes[c]).key == k && forall|j: int|
            0 <= j < c ==> (#[trigger] nodes[j]).key != k;
    assert(0 <= c < nodes.len() && nodes[c].key == k && forall|j: int| 0 <= j < c ==> (#[trigger] nodes[j]).key != k);
    if c < i {
        assert(nodes[c].key != k);
    } else if i < c {
        assert(nodes[i].key != k);
    }
}

proof fn first_key_from(nodes: Seq<NodeView>, k: Seq<char>, i: int) -> (j: int)
    requires
        0 <= i <= nodes.len(),
        forall|j: int| 0 <= j < i ==> (#[trigger] nodes[j]).key != k,
        exists|j: int| i <= j < nodes.len() && (#[trigger] nodes[j]).key == k,
    ensures
        0 <= j < nodes.len(),
        nodes[j].key == k,
        forall|l: int| 0 <= l < j ==> (#[trigger] nodes[l]).key != k,
    decreases nodes.len() - i,
{
    if nodes[i].key == k {
        i
    } else {
        first_key_from(nodes, k, i + 1)
    }
}

/// What `key_index` gives: the first index with the key, or none when no
/// node has it.
pub proof fn lemma_key_index_spec(nodes: Seq<NodeView>, k: Seq<char>)
    ensures
        key_index(nodes, k) matches Some(i) ==> {
            &&& 0 <= i < nodes.len()
            &&& nodes[i].key == k
            &&& forall|j: int| 0 <= j < i ==> (#[trigger] nodes[j]).key != k
        },
        key_index(nodes, k) is None ==> forall|j: int| 0 <= j < nodes.len() ==> (#[trigger] nodes[j]).key != k,
{
    if exists|i: int| 0 <= i < nodes.len() && (#[trigger] nodes[i]).key == k {
        let j = first_key_from(nodes, k, 0);
        lemma_key_index(nodes, k, j);
    }
}

/// `nodes` with `f` applied to the node that `parts` names.
pub open spec fn update_at(
    nodes: Seq<NodeView>,
    parts: Seq<Seq<char>>,
    f: spec_fn(NodeView) -> NodeView,
) -> Seq<NodeView>
    decreases parts.len(),
{
    if parts.len() == 0 {
        nodes
    } else {
        match key_index(nodes, parts[0]) {
            None => nodes,
            Some(i) => if parts.len() == 1 {
                nodes.update(i, f(nodes[i]))
            } else {
                nodes.update(
                    i,
                    NodeView { children: update_at(nodes[i].children, parts.drop_first(), f), ..nodes[i] },
                )
            },
        }
    }
}

/// The node that `parts` names, if any.
pub open spec fn node_at(nodes: Seq<NodeView>, parts: Seq<Seq<char>>) -> Option<NodeView>
    decreases parts.len(),
{
    if parts.len() == 0 {
        None
    } else {
        match key_index(nodes, parts[0]) {
            None => None,
            Some(i) => if parts.len() == 1 {
                Some(nodes[i])
            } else {
                node_at(nodes[i].children, parts.drop_first())
            },
        }
    }
}

pub proof fn lemma_nodes_view_update(s: Seq<ConfigNode>, i: int, n: ConfigNode)
    requires
        0 <= i < s.len(),
    ensures
        nodes_view(s.update(i, n)) == nodes_view(s).update(i, node_view(n)),
{
    lemma_nodes_view(s);
    lemma_nodes_view(s.update(i, n));
    assert(nodes_view(s.update(i, n)) =~= nodes_view(s).update(i, node_view(n)));
}

/// The parts from `pi` on.
pub open spec fn parts_from(parts: Seq<String>, pi: int) -> Seq<Seq<char>> {
    strs_view(parts).skip(pi)
}

pub proof fn lemma_parts_from(parts: Seq<String>, pi: int)
    requires
        0 <= pi < parts.len(),
    ensures
        parts_from(parts, pi).len() == parts.len() - pi,
        parts_from(parts, pi)[0] == parts[pi]@,
        parts_from(parts, pi).drop_first() == parts_from(parts, pi + 1),
{
    assert(parts_from(parts, pi).drop_first() =~= parts_from(parts, pi + 1));
}

/// The value of a node replaced by `v`.
pub open spec fn with_value(v: Json) -> spec_fn(NodeView) -> NodeView {
    |n: NodeView| NodeView { value: v, ..n }
}

/// The index of the first node of `nodes` with key `k`.
pub fn find_key(nodes: &Vec<ConfigNode>, k: &str) -> (r: Option<usize>)
    ensures
        r matches Some(i) ==> key_index(nodes_view(nodes@), k@) == Some(i as int) && i < nodes@.len(),
        r is None ==> key_index(nodes_view(nodes@), k@) is None,
{
    let ghost nv = nodes_view(nodes@);
    proof {
        lemma_nodes_view(nodes@);
    }
    let mut i: usize = 0;
    while i < nodes.len()
        invariant
            i <= nodes@.len(),
            nv == nodes_view(nodes@),
            nv.len() == nodes@.len(),
            forall|j: int| 0 <= j < nodes@.len() ==> #[trigger] nv[j] == node_view(nodes@[j]),
            forall|j: int| 0 <= j < i ==> (#[trigger] nv[j]).key != k@,
        decreases nodes@.len() - i,
    {
        if str_eq(nodes[i].key.as_str(), k) {
            proof {
                lemma_key_index(nv, k@, i as int);
            }
            return Some(i);
        }
        i = i + 1;
    }
    None
}

/// Sets the value of the node that `parts[pi..]` names.
pub fn set_in_nodes(nodes: &mut Vec<ConfigNode>, parts: &Vec<String>, pi: usize, value: JsonValue)
    requires
        pi <= parts@.len(),
    ensures
        nodes_view(final(nodes)@) == update_at(nodes_view(old(nodes)@), parts_from(parts@, pi as int), with_value(value@)),
    decreases parts@.len() - pi,
{
    let ghost nv = nodes_view(nodes@);
    let ghost f = with_value(value@);
    proof {
        lemma_nodes_view(nodes@);
    }
    if pi >= parts.len() {
        return;
    }
    proof {
        lemma_parts_from(parts@, pi as int);
    }
    if let Some(i) = find_key(nodes, parts[pi].as_str()) {
        let ghost before = nodes@;
        if pi == parts.len() - 1 {
            let node = &mut nodes[i];
            node.value = value;
            proof {
                lemma_nodes_view_update(before, i as int, nodes@[i as int]);
                assert(node_view(nodes@[i as int]) =~= f(nv[i as int]));
            }
        } else {
            let node = &mut nodes[i];
            set_in_nodes(&mut node.children, parts, pi + 1, value);
            proof {
                lemma_nodes_view_update(before, i as int, nodes@[i as int]);
                assert(node_view(nodes@[i as int]) =~= NodeView {
                    children: update_at(nv[i as int].children, parts_from(parts@, pi + 1), f),
                    ..nv[i as int]
                });
            }
        }
    }
}

/// An optional's kind with its presence set to `s`; other kinds unchanged.
pub open spec fn option_kind_with(k: KindView, s: bool) -> KindView {
    match k {
        KindView::Option { inner_kind, .. } => KindView::Option { is_some: s, inner_kind },
        _ => k,
    }
}

/// An optional set present or absent, with a new value and new children.
pub open spec fn with_option_state(is_some: bool, v: Json, children: Seq<NodeView>) -> spec_fn(NodeView) -> NodeView {
    |n: NodeView| NodeView { kind: option_kind_with(n.kind, is_some), value: v, children, ..n }
}

/// Sets the presence, value and children of the optional that
/// `parts[pi..]` names.
pub fn set_option_state_in_nodes(
    nodes: &mut Vec<ConfigNode>,
    parts: &Vec<String>,
    pi: usize,
    is_some: bool,
    value: JsonValue,
    children: Vec<ConfigNode>,
)
    requires
        pi <= parts@.len(),
    ensures
        nodes_view(final(nodes)@) == update_at(
            nodes_view(old(nodes)@),
            parts_from(parts@, pi as int),
            with_option_state(is_some, value@, nodes_view(children@)),
        ),
    decreases parts@.len() - pi,
{
    let ghost nv = nodes_view(nodes@);
    let ghost f = with_option_state(is_some, value@, nodes_view(children@));
    proof {
        lemma_nodes_view(nodes@);
    }
    if pi >= parts.len() {
        return;
    }
    proof {
        lemma_parts_from(parts@, pi as int);
    }
    if let Some(i) = find_key(nodes, parts[pi].as_str()) {
        let ghost before = nodes@;
        if pi == parts.len() - 1 {
            let node = &mut nodes[i];
            match &mut node.kind {
                NodeKind::Option { is_some: s, .. } => {
                    *s = is_some;
                },
                _ => {},
            }
            node.value = value;
            node.children = children;
            proof {
                lemma_nodes_view_update(before, i as int, nodes@[i as int]);
                assert(node_view(nodes@[i as int]) =~= f(nv[i as int]));
            }
        } else {
            let node = &mut nodes[i];
            set_option_state_in_nodes(&mut node.children, parts, pi + 1, is_some, value, children);
            proof {
                lemma_nodes_view_update(before, i as int, nodes@[i as int]);
                assert(node_view(nodes@[i as int]) =~= NodeView {
                    children: update_at(nv[i as int].children, parts_from(parts@, pi + 1), f),
                    ..nv[i as int]
                });
            }
        }
    }
}

/// A checkbox item checked or unchecked; other nodes unchanged.
pub open spec fn with_checked(checked: bool) -> spec_fn(NodeView) -> NodeView {
    |n: NodeView|
        match n.kind {
            KindView::CheckboxItem { .. } => NodeView {
                kind: KindView::CheckboxItem { checked },
                value: Json::Bool(checked),
                ..n
            },
            _ => n,
        }
}

/// Checks or unchecks the checkbox item that `parts[pi..]` names.
pub fn toggle_checkbox_in_nodes(nodes: &mut Vec<ConfigNode>, parts: &Vec<String>, pi: usize, checked: bool)
    requires
        pi <= parts@.len(),
    ensures
        nodes_view(final(nodes)@) == update_at(nodes_view(old(nodes)@), parts_from(parts@, pi as int), with_checked(checked)),
    decreases parts@.len() - pi,
{
    let ghost nv = nodes_view(nodes@);
    let ghost f = with_checked(checked);
    proof {
        lemma_nodes_view(nodes@);
    }
    if pi >= parts.len() {
        return;
    }
    proof {
        lemma_parts_from(parts@, pi as int);
    }
    if let Some(i) = find_key(nodes, parts[pi].as_str()) {
        let ghost before = nodes@;
        if pi == parts.len() - 1 {
            let node = &mut nodes[i];
            if let NodeKind::CheckboxItem { .. } = node.kind {
                node.kind = NodeKind::CheckboxItem { checked };
                node.value = JsonValue::Bool(checked);
            }
            proof {
                lemma_nodes_view_update(before, i as int, nodes@[i as int]);
                assert(node_view(nodes@[i as int]) =~= f(nv[i as int]));
            }
        } else {
            let node = &mut nodes[i];
            toggle_checkbox_in_nodes(&mut node.children, parts, pi + 1, checked);
            proof {
                lemma_nodes_view_update(before, i as int, nodes@[i as int]);
                assert(node_view(nodes@[i as int]) =~= NodeView {
                    children: update_at(nv[i as int].children, parts_from(parts@, pi + 1), f),
                    ..nv[i as int]
                });
            }
        }
    }
}

/// The keys of the checked checkbox items among `children`, as JSON
/// strings, in order.
pub open spec fn checked_names(children: Seq<NodeView>) -> Seq<Json>
    decreases children.len(),
{
    if children.len() == 0 {
        Seq::empty()
    } else {
        let p = checked_names(children.drop_last());
        if children.last().kind == (KindView::CheckboxItem { checked: true }) {
            p.push(Json::Str(children.last().key))
        } else {
            p
        }
    }
}

/// The JSON strings of the checked items of `children`.
pub fn checked_names_exec(children: &Vec<ConfigNode>) -> (r: Vec<JsonValue>)
    ensures
        json_seq_view(r@) == checked_names(nodes_view(children@)),
{
    let ghost cv = nodes_view(children@);
    proof {
        lemma_nodes_view(children@);
        assert(json_seq_view(Seq::<JsonValue>::empty()) =~= Seq::<Json>::empty());
        assert(cv.take(0) =~= Seq::<NodeView>::empty());
    }
    let mut r: Vec<JsonValue> = Vec::new();
    let mut i: usize = 0;
    while i < children.len()
        invariant
            i <= children@.len(),
            cv == nodes_view(children@),
            cv.len() == children@.len(),
            forall|j: int| 0 <= j < children@.len() ==> #[trigger] cv[j] == node_view(children@[j]),
            json_seq_view(r@) == checked_names(cv.take(i as int)),
        decreases children@.len() - i,
    {
        proof {
            assert(cv.take(i + 1).drop_last() =~= cv.take(i as int));
            assert(cv.take(i + 1).last() == cv[i as int]);
        }
        if let NodeKind::CheckboxItem { checked: true } = children[i].kind {
            let ghost before = r@;
            let k = children[i].key.clone();
            proof {
                assert(k@ == cv[i as int].key);
            }
            r.push(JsonValue::String(k));
            proof {
                assert(r@.drop_last() =~= before);
                assert(r@.last() == JsonValue::String(k));
                assert(json_view(r@.last()) == Json::Str(k@));
                assert(r@.len() > 0);
                assert(json_seq_view(r@) == json_seq_view(r@.drop_last()).push(json_view(r@.last())));
                assert(json_seq_view(r@) == json_seq_view(before).push(Json::Str(cv[i as int].key)));
            }
        } else {
            proof {
                assert(cv[i as int].kind != (KindView::CheckboxItem { checked: true }));
            }
        }
        i = i + 1;
    }
    proof {
        assert(cv.take(children@.len() as int) =~= cv);
    }
    r
}

/// A checkboxes node's value rebuilt from its checked items; other
/// nodes unchanged.
pub open spec fn with_checked_list() -> spec_fn(NodeView) -> NodeView {
    |n: NodeView|
        match n.kind {
            KindView::Checkboxes { .. } => NodeView { value: Json::Array(checked_names(n.children)), ..n },
            _ => n,
        }
}

/// Rebuilds the value of the checkboxes node that `parts[pi..]` names.
#[verifier::rlimit(40)]
pub fn rebuild_checkboxes_value(nodes: &mut Vec<ConfigNode>, parts: &Vec<String>, pi: usize)
    requires
        pi <= parts@.len(),
    ensures
        nodes_view(final(nodes)@) == update_at(nodes_view(old(nodes)@), parts_from(parts@, pi as int), with_checked_list()),
    decreases parts@.len() - pi,
{
    let ghost nv = nodes_view(nodes@);
    let ghost f = with_checked_list();
    proof {
        lemma_nodes_view(nodes@);
    }
    if pi >= parts.len() {
        return;
    }
    proof {
        lemma_parts_from(parts@, pi as int);
    }
    if let Some(i) = find_key(nodes, parts[pi].as_str()) {
        let ghost before = nodes@;
        if pi == parts.len() - 1 {
            let node = &mut nodes[i];
            if let NodeKind::Checkboxes { .. } = node.kind {
                let names = checked_names_exec(&node.children);
                node.value = JsonValue::Array(names);
            }
            proof {
                lemma_nodes_view_update(before, i as int, nodes@[i as int]);
                assert(node_view(nodes@[i as int]) =~= f(nv[i as int]));
            }
        } else {
            let node = &mut nodes[i];
            rebuild_checkboxes_value(&mut node.children, parts, pi + 1);
            proof {
                lemma_nodes_view_update(before, i as int, nodes@[i as int]);
                assert(node_view(nodes@[i as int]) =~= NodeView {
                    children: update_at(nv[i as int].children, parts_from(parts@, pi + 1), f),
                    ..nv[i as int]
                });
            }
        }
    }
}

/// A child of a radio group after variant `name` is chosen: a radio item
/// is selected exactly when its key is `name`; a struct variant that
/// becomes selected gets the fields of its schema's defaults (nesting
/// stops at `DEPTH_CAP`, as in the builder), one that is not selected
/// loses its fields. Other children are unchanged.
pub open spec fn radio_child(c: NodeView, name: Seq<char>, defs: Entries, depth: usize) -> NodeView {
    match c.kind {
        KindView::RadioItem { is_struct, .. } => {
            let is_match = c.key == name;
            let children = if !is_struct {
                c.children
            } else if !is_match {
                Seq::empty()
            } else {
                match c.inner_schema {
                    None => c.children,
                    Some(schema) => match get_object(schema, "properties"@) {
                        None => c.children,
                        Some(props) => if depth + 2 <= DEPTH_CAP {
                            built_children(
                                props,
                                schema,
                                defs,
                                json_as_object(default_value(schema, defs)),
                                (depth + 2) as usize,
                            )
                        } else {
                            Seq::empty()
                        },
                    },
                }
            };
            NodeView {
                kind: KindView::RadioItem { selected: is_match, is_struct },
                value: Json::Bool(is_match),
                children,
                ..c
            }
        },
        _ => c,
    }
}

pub open spec fn radio_children(children: Seq<NodeView>, name: Seq<char>, defs: Entries, depth: usize) -> Seq<NodeView> {
    children.map_values(|c: NodeView| radio_child(c, name, defs, depth))
}

/// The value of a radio group whose variant `name` was chosen: the name
/// for a unit variant, `{name: defaults}` for a struct variant.
pub open spec fn radio_group_value(children: Seq<NodeView>, old_value: Json, name: Seq<char>, defs: Entries) -> Json {
    match key_index(children, name) {
        None => old_value,
        Some(k) => match children[k].kind {
            KindView::RadioItem { is_struct: true, .. } => match children[k].inner_schema {
                Some(schema) => Json::Object(seq![(name, default_value(schema, defs))]),
                None => old_value,
            },
            _ => Json::Str(name),
        },
    }
}

/// A radio group with variant `name` chosen.
pub open spec fn with_radio_selected(name: Seq<char>, defs: Entries) -> spec_fn(NodeView) -> NodeView {
    |n: NodeView|
        {
            let ch = radio_children(n.children, name, defs, n.depth);
            NodeView { children: ch, value: radio_group_value(ch, n.value, name, defs), ..n }
        }
}

fn choose_in_radio_item(c: &mut ConfigNode, name: &str, defs: &Vec<(String, JsonValue)>, depth: usize)
    ensures
        node_view(*final(c)) == radio_child(node_view(*old(c)), name@, ev(defs@), depth),
{
    let ghost cv = node_view(*c);
    match c.kind {
        NodeKind::RadioItem { is_struct, .. } => {
            let is_match = str_eq(c.key.as_str(), name);
            c.kind = NodeKind::RadioItem { selected: is_match, is_struct };
            c.value = JsonValue::Bool(is_match);
            if is_struct {
                if is_match {
                    if let Some(schema) = &c.inner_schema {
                        let dv = default_value_for_schema(schema, defs);
                        if let Some(props) = get_object_exec(schema, "properties") {
                            if depth <= DEPTH_CAP - 2 {
                                let fields = build_tree_from_properties(props, schema, defs, dv.as_object(), depth + 2);
                                c.children = fields;
                            } else {
                                c.children = Vec::new();
                                proof {
                                    assert(nodes_view(c.children@) =~= Seq::<NodeView>::empty());
                                }
                            }
                        }
                    }
                } else {
                    c.children = Vec::new();
                    proof {
                        assert(nodes_view(c.children@) =~= Seq::<NodeView>::empty());
                    }
                }
            }
            proof {
                assert(node_view(*c) =~= radio_child(cv, name@, ev(defs@), depth));
            }
        },
        _ => {},
    }
}

/// Chooses variant `name` in the radio group `g` (see `with_radio_selected`).
fn choose_in_radio_group(g: &mut ConfigNode, name: &str, defs: &Vec<(String, JsonValue)>)
    ensures
        node_view(*final(g)) == (with_radio_selected(name@, ev(defs@)))(node_view(*old(g))),
{
    let ghost gv = node_view(*g);
    let ghost ov = nodes_view(g.children@);
    let ghost d = ev(defs@);
    let depth = g.depth;
    proof {
        lemma_nodes_view(g.children@);
    }
    let mut j: usize = 0;
    while j < g.children.len()
        invariant
            g.depth == depth,
            depth == gv.depth,
            ov.len() == g.children@.len(),
            j <= g.children@.len(),
            forall|k: int| 0 <= k < j ==> #[trigger] node_view(g.children@[k]) == radio_child(ov[k], name@, d, depth),
            forall|k: int| j <= k < g.children@.len() ==> #[trigger] node_view(g.children@[k]) == ov[k],
            d == ev(defs@),
            g.key == old(g).key,
            g.kind == old(g).kind,
            g.value == old(g).value,
            g.description == old(g).description,
            g.inner_schema == old(g).inner_schema,
            gv == node_view(*old(g)),
        decreases g.children@.len() - j,
    {
        let c = &mut g.children[j];
        choose_in_radio_item(c, name, defs, depth);
        j = j + 1;
    }
    let ghost ch = radio_children(ov, name@, d, depth);
    proof {
        lemma_nodes_view_ext(g.children@, ch);
    }
    match find_key(&g.children, name) {
        Some(k) => {
            let c = &g.children[k];
            proof {
                lemma_nodes_view(g.children@);
            }
            if let NodeKind::RadioItem { is_struct: true, .. } = c.kind {
                if let Some(schema) = &c.inner_schema {
                    let dv = default_value_for_schema(schema, defs);
                    let mut obj: Vec<(String, JsonValue)> = Vec::new();
                    obj.push((string_of(name), dv));
                    proof {
                        assert(obj@.drop_last() =~= Seq::<(String, JsonValue)>::empty());
                        assert(json_entries_view(Seq::<(String, JsonValue)>::empty()) =~= Seq::<(Seq<char>, Json)>::empty());
                        assert(json_entries_view(obj@) =~= seq![(name@, default_value(schema@, d))]);
                    }
                    g.value = JsonValue::Object(obj);
                }
            } else {
                g.value = JsonValue::String(string_of(name));
            }
        },
        None => {},
    }
    proof {
        assert(node_view(*g) =~= (with_radio_selected(name@, d))(gv));
    }
}

/// Chooses variant `variant_name` in the radio group that `parts[pi..]`
/// names (see `with_radio_selected`).
pub fn select_radio_in_nodes(
    nodes: &mut Vec<ConfigNode>,
    parts: &Vec<String>,
    pi: usize,
    variant_name: &str,
    defs: &Vec<(String, JsonValue)>,
)
    requires
        pi <= parts@.len(),
    ensures
        nodes_view(final(nodes)@) == update_at(
            nodes_view(old(nodes)@),
            parts_from(parts@, pi as int),
            with_radio_selected(variant_name@, ev(defs@)),
        ),
    decreases parts@.len() - pi,
{
    let ghost nv = nodes_view(nodes@);
    let ghost f = with_radio_selected(variant_name@, ev(defs@));
    proof {
        lemma_nodes_view(nodes@);
    }
    if pi >= parts.len() {
        return;
    }
    proof {
        lemma_parts_from(parts@, pi as int);
    }
    if let Some(i) = find_key(nodes, parts[pi].as_str()) {
        let ghost before = nodes@;
        if pi == parts.len() - 1 {
            let node = &mut nodes[i];
            choose_in_radio_group(node, variant_name, defs);
            proof {
                lemma_nodes_view_update(before, i as int, nodes@[i as int]);
            }
        } else {
            let node = &mut nodes[i];
            select_radio_in_nodes(&mut node.children, parts, pi + 1, variant_name, defs);
            proof {
                lemma_nodes_view_update(before, i as int, nodes@[i as int]);
                assert(node_view(nodes@[i as int]) =~= NodeView {
                    children: update_at(nv[i as int].children, parts_from(parts@, pi + 1), f),
                    ..nv[i as int]
                });
            }
        }
    }
}

/// The parts of a dotted path, as `str::split('.')` gives them.
pub fn path_parts(path: &str) -> (parts: Vec<String>)
    ensures
        parts_from(parts@, 0) == split_dots(path@),
{
    let parts = split_dots_exec(path);
    proof {
        assert(parts_from(parts@, 0) =~= split_dots(path@));
    }
    parts
}

} // verus!
