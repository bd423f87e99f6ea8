//! Configuration nodes and the schema-driven builder of the node tree.
use vstd::prelude::*;
use crate::json::{
    Json, JsonValue, json_view, json_seq_view, json_entries_view, lemma_json_seq_view,
    lemma_json_entries_view, json_get, obj_get, obj_has, json_as_array,
    json_as_object, get_str, get_array, get_object, entries_get, };
use crate::text::{str_eq, string_of};

verus! {

/// What a node edits.
#[derive(Debug, PartialEq)]
pub enum NodeKind {
    String,
    Integer,
    Float,
    Bool,
    /// `inner_kind` is the scalar kind of a scalar optional (shown inline,
    /// no children), or `None` for a struct optional (shown with children).
    Option { is_some: bool, inner_kind: Option<Box<NodeKind>> },
    Struct { struct_name: String },
    /// An exclusive enum shown as a radio-button group; its children are
    /// `RadioItem` nodes, exactly one of them selected.
    RadioGroup { variants: Vec<String> },
    /// One item of a `RadioGroup`; `is_struct` marks variants that carry
    /// struct data (their children hold its fields while selected).
    RadioItem { selected: bool, is_struct: bool },
    /// A list of unit enum values shown as checkboxes; its children are
    /// `CheckboxItem` nodes.
    Checkboxes { variants: Vec<String> },
    CheckboxItem { checked: bool },
}

/// The mathematical value of a `NodeKind`.
#[verifier::ext_equal]
pub enum KindView {
    String,
    Integer,
    Float,
    Bool,
    Option { is_some: bool, inner_kind: Option<Box<KindView>> },
    Struct { struct_name: Seq<char> },
    RadioGroup { variants: Seq<Seq<char>> },
    RadioItem { selected: bool, is_struct: bool },
    Checkboxes { variants: Seq<Seq<char>> },
    CheckboxItem { checked: bool },
}

pub open spec fn strs_view(v: Seq<String>) -> Seq<Seq<char>> {
    v.map_values(|s: String| s@)
}

pub open spec fn kind_view(k: NodeKind) -> KindView
    decreases k,
{
    match k {
        NodeKind::String => KindView::String,
        NodeKind::Integer => KindView::Integer,
        NodeKind::Float => KindView::Float,
        NodeKind::Bool => KindView::Bool,
        NodeKind::Option { is_some, inner_kind } => KindView::Option {
            is_some,
            inner_kind: match inner_kind {
                Some(b) => Some(Box::new(kind_view(*b))),
                None => None,
            },
        },
        NodeKind::Struct { struct_name } => KindView::Struct { struct_name: struct_name@ },
        NodeKind::RadioGroup { variants } => KindView::RadioGroup { variants: strs_view(variants@) },
        NodeKind::RadioItem { selected, is_struct } => KindView::RadioItem { selected, is_struct },
        NodeKind::Checkboxes { variants } => KindView::Checkboxes { variants: strs_view(variants@) },
        NodeKind::CheckboxItem { checked } => KindView::CheckboxItem { checked },
    }
}

impl View for NodeKind {
    type V = KindView;

    open spec fn view(&self) -> KindView {
        kind_view(*self)
    }
}

/// One node of the configuration tree.
#[derive(Debug)]
pub struct ConfigNode {
    pub key: String,
    pub kind: NodeKind,
    pub value: JsonValue,
    pub children: Vec<ConfigNode>,
    pub depth: usize,
    pub description: Option<String>,
    /// For option nodes and struct radio items: the schema of the inner
    /// type, from which a default value is made.
    pub inner_schema: Option<JsonValue>,
}

/// The mathematical value of a `ConfigNode`.
#[verifier::ext_equal]
pub struct NodeView {
    pub key: Seq<char>,
    pub kind: KindView,
    pub value: Json,
    pub children: Seq<NodeView>,
    pub depth: usize,
    pub description: Option<Seq<char>>,
    pub inner_schema: Option<Json>,
}

pub open spec fn opt_str_view(o: Option<String>) -> Option<Seq<char>> {
    match o {
        Some(s) => Some(s@),
        None => None,
    }
}

pub open spec fn opt_json_view(o: Option<JsonValue>) -> Option<Json> {
    match o {
        Some(v) => Some(v@),
        None => None,
    }
}

pub open spec fn node_view(n: ConfigNode) -> NodeView
    decreases n,
{
    NodeView {
        key: n.key@,
        kind: n.kind@,
        value: n.value@,
        children: nodes_view(n.children@),
        depth: n.depth,
        description: opt_str_view(n.description),
        inner_schema: opt_json_view(n.inner_schema),
    }
}

pub open spec fn nodes_view(s: Seq<ConfigNode>) -> Seq<NodeView>
    decreases s,
{
    if s.len() == 0 {
        Seq::empty()
    } else {
        nodes_view(s.drop_last()).push(node_view(s.last()))
    }
}

impl View for ConfigNode {
    type V = NodeView;

    open spec fn view(&self) -> NodeView {
        node_view(*self)
    }
}

pub proof fn lemma_nodes_view(s: Seq<ConfigNode>)
    ensures
        nodes_view(s).len() == s.len(),
        forall|i: int| 0 <= i < s.len() ==> #[trigger] nodes_view(s)[i] == node_view(s[i]),
    decreases s.len(),
{
    if s.len() > 0 {
        lemma_nodes_view(s.drop_last());
        assert forall|i: int| 0 <= i < s.len() implies #[trigger] nodes_view(s)[i] == node_view(s[i]) by {
            if i < s.len() - 1 {
                assert(s.drop_last()[i] == s[i]);
            }
        }
    }
}

/// Two node lists with the same length and the same views, node by node,
/// have the same view.
pub proof fn lemma_nodes_view_ext(s: Seq<ConfigNode>, v: Seq<NodeView>)
    requires
        s.len() == v.len(),
        forall|i: int| 0 <= i < s.len() ==> node_view(#[trigger] s[i]) == v[i],
    ensures
        nodes_view(s) == v,
{
    lemma_nodes_view(s);
    assert(nodes_view(s) =~= v);
}

pub proof fn lemma_nodes_view_push(s: Seq<ConfigNode>, n: ConfigNode)
    ensures
        nodes_view(s.push(n)) == nodes_view(s).push(node_view(n)),
{
    assert(s.push(n).drop_last() =~= s);
}

// ---------------------------------------------------------------------
// Schema reading
// ---------------------------------------------------------------------

pub type Entries = Seq<(Seq<char>, Json)>;

/// Nesting stops at this depth; below it, `depth + 2` cannot overflow.
pub const DEPTH_CAP: usize = usize::MAX - 2;

/// `ref_path.strip_prefix("#/$defs/").unwrap_or(ref_path)`.
#[verifier::opaque]
pub open spec fn strip_defs_prefix(r: Seq<char>) -> Seq<char> {
    let p = "#/$defs/"@;
    if p.len() <= r.len() && r.take(p.len() as int) == p {
        r.skip(p.len() as int)
    } else {
        r
    }
}

/// Follows a `$ref` into the definitions, when it names one.
#[verifier::opaque]
pub open spec fn resolved(schema: Json, defs: Entries) -> Json {
    match json_get(schema, "$ref"@) {
        Some(Json::Str(r)) => match obj_get(defs, strip_defs_prefix(r)) {
            Some(d) => d,
            None => schema,
        },
        _ => schema,
    }
}

/// The node kind of a scalar schema (`"type"` a scalar type name).
#[verifier::opaque]
pub open spec fn scalar_kind_of(schema: Json) -> Option<KindView> {
    match get_str(schema, "type"@) {
        Some(t) => if t == "string"@ {
            Some(KindView::String)
        } else if t == "integer"@ {
            Some(KindView::Integer)
        } else if t == "number"@ {
            Some(KindView::Float)
        } else if t == "boolean"@ {
            Some(KindView::Bool)
        } else {
            None
        },
        None => None,
    }
}

/// The type name of a schema: `"type"` as a string, or the one string of
/// a one-element `"type"` array; empty otherwise.
#[verifier::opaque]
pub open spec fn type_name_of(r: Json) -> Seq<char> {
    match json_get(r, "type"@) {
        Some(Json::Str(s)) => s,
        Some(Json::Array(a)) => if a.len() == 1 {
            match a[0] {
                Json::Str(s) => s,
                _ => Seq::empty(),
            }
        } else {
            Seq::empty()
        },
        _ => Seq::empty(),
    }
}

/// The strings among `a`, in order.
pub open spec fn strings_of(a: Seq<Json>) -> Seq<Seq<char>>
    decreases a.len(),
{
    if a.len() == 0 {
        Seq::empty()
    } else {
        let p = strings_of(a.drop_last());
        match a.last() {
            Json::Str(s) => p.push(s),
            _ => p,
        }
    }
}

/// The string `"const"` values among `a`, in order.
pub open spec fn consts_of(a: Seq<Json>) -> Seq<Seq<char>>
    decreases a.len(),
{
    if a.len() == 0 {
        Seq::empty()
    } else {
        let p = consts_of(a.drop_last());
        match get_str(a.last(), "const"@) {
            Some(s) => p.push(s),
            None => p,
        }
    }
}

/// The variants of a unit enum schema: its `"enum"` strings, or else the
/// `"const"` strings of its `"oneOf"`.
#[verifier::opaque]
pub open spec fn enum_variants_of(schema: Json) -> Option<Seq<Seq<char>>> {
    let from_enum = match get_array(schema, "enum"@) {
        Some(a) => strings_of(a),
        None => Seq::empty(),
    };
    if from_enum.len() > 0 {
        Some(from_enum)
    } else {
        let from_one_of = match get_array(schema, "oneOf"@) {
            Some(a) => consts_of(a),
            None => Seq::empty(),
        };
        if from_one_of.len() > 0 {
            Some(from_one_of)
        } else {
            None
        }
    }
}

/// Name and (for struct variants) resolved data schema of each variant.
pub type Infos = Seq<(Seq<char>, Option<Json>)>;

pub open spec fn unit_infos(names: Seq<Seq<char>>) -> Infos {
    names.map_values(|n: Seq<char>| (n, None::<Json>))
}

/// The variants described by the entries of a `"oneOf"`.
pub open spec fn infos_of(arr: Seq<Json>, defs: Entries) -> Infos
    decreases arr.len(),
{
    if arr.len() == 0 {
        Seq::empty()
    } else {
        infos_step(infos_of(arr.drop_last(), defs), resolved(arr.last(), defs), defs)
    }
}

/// Adds the variants described by one resolved `"oneOf"` entry.
pub open spec fn infos_step(p: Infos, re: Json, defs: Entries) -> Infos {
    match get_str(re, "const"@) {
        Some(c) => p.push((c, None)),
        None => match get_array(re, "enum"@) {
            Some(ea) => p + unit_infos(strings_of(ea)),
            None => match get_object(re, "properties"@) {
                Some(props) => if props.len() == 1 {
                    p.push((props[0].0, Some(resolved(props[0].1, defs))))
                } else {
                    p
                },
                None => p,
            },
        },
    }
}

/// The variants of an enum schema, or `None` when it is no enum.
#[verifier::opaque]
pub open spec fn variant_infos_of(r: Json, defs: Entries) -> Option<Infos> {
    let from_one_of = match get_array(r, "oneOf"@) {
        Some(a) => infos_of(a, defs),
        None => Seq::empty(),
    };
    if from_one_of.len() > 0 {
        Some(from_one_of)
    } else {
        let from_enum = match get_array(r, "enum"@) {
            Some(a) => unit_infos(strings_of(a)),
            None => Seq::empty(),
        };
        if from_enum.len() > 0 {
            Some(from_enum)
        } else {
            None
        }
    }
}

/// The entries of `req` that are keys of `props`, in order.
pub open spec fn present_only(req: Seq<Seq<char>>, props: Entries) -> Seq<Seq<char>>
    decreases req.len(),
{
    if req.len() == 0 {
        Seq::empty()
    } else {
        let p = present_only(req.drop_last(), props);
        if obj_has(props, req.last()) {
            p.push(req.last())
        } else {
            p
        }
    }
}

/// `acc` followed by those of `ks` that it does not hold yet.
pub open spec fn add_missing(acc: Seq<Seq<char>>, ks: Seq<Seq<char>>) -> Seq<Seq<char>>
    decreases ks.len(),
{
    if ks.len() == 0 {
        acc
    } else {
        let p = add_missing(acc, ks.drop_last());
        if p.contains(ks.last()) {
            p
        } else {
            p.push(ks.last())
        }
    }
}

pub open spec fn entry_keys(props: Entries) -> Seq<Seq<char>> {
    props.map_values(|e: (Seq<char>, Json)| e.0)
}

/// Field order: the `"required"` names that are properties, in their
/// order, then the other properties in map order.
#[verifier::opaque]
pub open spec fn ordered_keys(props: Entries, parent: Json) -> Seq<Seq<char>> {
    let first = match get_array(parent, "required"@) {
        Some(a) => present_only(strings_of(a), props),
        None => Seq::empty(),
    };
    add_missing(first, entry_keys(props))
}

/// The value of field `k`: its entry in the object, or null.
pub open spec fn field_value(value_obj: Option<Entries>, k: Seq<char>) -> Json {
    match value_obj {
        Some(o) => match obj_get(o, k) {
            Some(v) => v,
            None => Json::Null,
        },
        None => Json::Null,
    }
}

pub open spec fn leaf(key: Seq<char>, kind: KindView, value: Json, depth: usize, descr: Option<Seq<char>>) -> NodeView {
    NodeView { key, kind, value, children: Seq::empty(), depth, description: descr, inner_schema: None }
}

/// Is `v` a schema whose `"type"` is `"null"`?
pub open spec fn is_null_schema(v: Json) -> bool {
    get_str(v, "type"@) == Some("null"@)
}

/// The first entry of `s` that is not a null schema.
pub open spec fn first_non_null(s: Seq<Json>) -> Option<Json>
    decreases s.len(),
{
    if s.len() == 0 {
        None
    } else if !is_null_schema(s[0]) {
        Some(s[0])
    } else {
        first_non_null(s.drop_first())
    }
}

/// The first entry of `s` other than `"null"`.
pub open spec fn first_non_null_name(s: Seq<Seq<char>>) -> Option<Seq<char>>
    decreases s.len(),
{
    if s.len() == 0 {
        None
    } else if s[0] != "null"@ {
        Some(s[0])
    } else {
        first_non_null_name(s.drop_first())
    }
}

pub open spec fn json_is_null(v: Json) -> bool {
    v == Json::Null
}

pub open spec fn boxed(k: Option<KindView>) -> Option<Box<KindView>> {
    match k {
        Some(x) => Some(Box::new(x)),
        None => None,
    }
}

/// An `Option<T>` field given as `"type": [T, "null"]`.
#[verifier::opaque]
pub open spec fn type_array_option_node(
    key: Seq<char>,
    ta: Seq<Json>,
    value: Json,
    depth: usize,
    descr: Option<Seq<char>>,
) -> Option<NodeView> {
    let types = strings_of(ta);
    if !types.contains("null"@) || types.len() < 2 {
        None
    } else {
        match first_non_null_name(types) {
            None => None,
            Some(t) => {
                let inner = Json::Object(seq![("type"@, Json::Str(t))]);
                Some(NodeView {
                    key,
                    kind: KindView::Option { is_some: !json_is_null(value), inner_kind: boxed(scalar_kind_of(inner)) },
                    value,
                    children: Seq::empty(),
                    depth,
                    description: descr,
                    inner_schema: Some(inner),
                })
            },
        }
    }
}

/// The checkbox item of variant `v` under the current selection.
pub open spec fn checkbox_item(v: Seq<char>, current: Seq<Seq<char>>, depth: usize) -> NodeView {
    let checked = current.contains(v);
    NodeView {
        key: v,
        kind: KindView::CheckboxItem { checked },
        value: Json::Bool(checked),
        children: Seq::empty(),
        depth: (depth + 1) as usize,
        description: None,
        inner_schema: None,
    }
}

pub open spec fn checkbox_items(variants: Seq<Seq<char>>, current: Seq<Seq<char>>, depth: usize) -> Seq<NodeView> {
    variants.map_values(|v: Seq<char>| checkbox_item(v, current, depth))
}

/// A list of unit enum values, shown as checkboxes.
#[verifier::opaque]
pub open spec fn checkbox_node(
    key: Seq<char>,
    r: Json,
    value: Json,
    defs: Entries,
    depth: usize,
    descr: Option<Seq<char>>,
) -> Option<NodeView> {
    match get_str(r, "type"@) {
        None => None,
        Some(t) => if t != "array"@ {
            None
        } else {
            match json_get(r, "items"@) {
                None => None,
                Some(items) => match enum_variants_of(resolved(items, defs)) {
                    None => None,
                    Some(variants) => {
                        let current = match json_as_array(value) {
                            Some(a) => strings_of(a),
                            None => Seq::empty(),
                        };
                        Some(NodeView {
                            key,
                            kind: KindView::Checkboxes { variants },
                            value,
                            children: checkbox_items(variants, current, depth),
                            depth,
                            description: descr,
                            inner_schema: None,
                        })
                    },
                },
            }
        },
    }
}

/// The selected variant name and data of an enum value: a string names a
/// unit variant, a one-entry object a variant with data.
#[verifier::opaque]
pub open spec fn current_variant(value: Json) -> (Seq<char>, Option<Json>) {
    match value {
        Json::Str(s) => (s, None),
        Json::Object(o) => if o.len() == 1 {
            (o[0].0, Some(o[0].1))
        } else {
            (Seq::empty(), None)
        },
        _ => (Seq::empty(), None),
    }
}

// ---------------------------------------------------------------------
// The builder (mutually recursive; nesting stops at `DEPTH_CAP`)
// ---------------------------------------------------------------------

/// The nodes for the properties `props` of `parent`, at `depth`.
pub open spec fn built_children(
    props: Entries,
    parent: Json,
    defs: Entries,
    value_obj: Option<Entries>,
    depth: usize,
) -> Seq<NodeView>
    decreases DEPTH_CAP - depth, 4int, 0int,
{
    built_fields(ordered_keys(props, parent), props, defs, value_obj, depth)
}

pub open spec fn built_fields(
    keys: Seq<Seq<char>>,
    props: Entries,
    defs: Entries,
    value_obj: Option<Entries>,
    depth: usize,
) -> Seq<NodeView>
    decreases DEPTH_CAP - depth, 3int, keys.len(),
{
    if keys.len() == 0 {
        Seq::empty()
    } else {
        let p = built_fields(keys.drop_last(), props, defs, value_obj, depth);
        let k = keys.last();
        match obj_get(props, k) {
            Some(fs) => p.push(built_node(k, fs, field_value(value_obj, k), defs, depth)),
            None => p,
        }
    }
}

/// The node for field `key` with schema `schema` and value `value`.
pub open spec fn built_node(key: Seq<char>, schema: Json, value: Json, defs: Entries, depth: usize) -> NodeView
    decreases DEPTH_CAP - depth, 2int, 0int,
{
    let r = resolved(schema, defs);
    let descr = get_str(r, "description"@);
    let opt1 = match get_array(r, "anyOf"@) {
        Some(any_of) => option_node(key, any_of, value, defs, depth, descr),
        None => None,
    };
    let opt2 = match get_array(r, "type"@) {
        Some(ta) => type_array_option_node(key, ta, value, depth, descr),
        None => None,
    };
    let en = enum_node(key, r, value, defs, depth, descr);
    let cb = checkbox_node(key, r, value, defs, depth, descr);
    if opt1 is Some {
        opt1->Some_0
    } else if opt2 is Some {
        opt2->Some_0
    } else if en is Some {
        en->Some_0
    } else if cb is Some {
        cb->Some_0
    } else {
        plain_node(key, r, value, defs, depth, descr)
    }
}

/// A scalar or struct node, by the schema's type name.
pub open spec fn plain_node(
    key: Seq<char>,
    r: Json,
    value: Json,
    defs: Entries,
    depth: usize,
    descr: Option<Seq<char>>,
) -> NodeView
    decreases DEPTH_CAP - depth, 1int, 0int,
{
    let t = type_name_of(r);
    if t == "string"@ {
        leaf(key, KindView::String, value, depth, descr)
    } else if t == "integer"@ {
        leaf(key, KindView::Integer, value, depth, descr)
    } else if t == "number"@ {
        leaf(key, KindView::Float, value, depth, descr)
    } else if t == "boolean"@ {
        leaf(key, KindView::Bool, value, depth, descr)
    } else if t == "object"@ {
        let struct_name = match get_str(r, "title"@) {
            Some(s) => s,
            None => "object"@,
        };
        let children = match get_object(r, "properties"@) {
            Some(p) => if depth < DEPTH_CAP {
                built_children(p, r, defs, json_as_object(value), (depth + 1) as usize)
            } else {
                Seq::empty()
            },
            None => Seq::empty(),
        };
        NodeView {
            key,
            kind: KindView::Struct { struct_name },
            value,
            children,
            depth,
            description: descr,
            inner_schema: None,
        }
    } else {
        leaf(key, KindView::String, value, depth, descr)
    }
}

/// An `Option<T>` field given as `"anyOf": [T, {"type": "null"}]`.
pub open spec fn option_node(
    key: Seq<char>,
    any_of: Seq<Json>,
    value: Json,
    defs: Entries,
    depth: usize,
    descr: Option<Seq<char>>,
) -> Option<NodeView>
    decreases DEPTH_CAP - depth, 1int, 0int,
{
    let has_null = exists|i: int| 0 <= i < any_of.len() && is_null_schema(#[trigger] any_of[i]);
    if !has_null || any_of.len() < 2 {
        None
    } else {
        match first_non_null(any_of) {
            None => None,
            Some(inner) => {
                let ri = resolved(inner, defs);
                let is_some = !json_is_null(value);
                let ik = scalar_kind_of(ri);
                let children = if ik is Some {
                    Seq::empty()
                } else if is_some && depth < DEPTH_CAP {
                    inner_children(ri, value, defs, (depth + 1) as usize)
                } else {
                    Seq::empty()
                };
                Some(NodeView {
                    key,
                    kind: KindView::Option { is_some, inner_kind: boxed(ik) },
                    value,
                    children,
                    depth,
                    description: descr,
                    inner_schema: Some(inner),
                })
            },
        }
    }
}

/// The children of a present optional: the fields of a struct, or one
/// node named `value`.
pub open spec fn inner_children(rs: Json, value: Json, defs: Entries, depth: usize) -> Seq<NodeView>
    decreases DEPTH_CAP - depth, 5int, 0int,
{
    let t = match get_str(rs, "type"@) {
        Some(t) => t,
        None => Seq::empty(),
    };
    if t == "object"@ && get_object(rs, "properties"@) is Some {
        built_children(get_object(rs, "properties"@)->Some_0, rs, defs, json_as_object(value), depth)
    } else {
        seq![built_node("value"@, rs, value, defs, depth)]
    }
}

/// An enum, shown as a radio group.
pub open spec fn enum_node(
    key: Seq<char>,
    r: Json,
    value: Json,
    defs: Entries,
    depth: usize,
    descr: Option<Seq<char>>,
) -> Option<NodeView>
    decreases DEPTH_CAP - depth, 1int, 0int,
{
    match variant_infos_of(r, defs) {
        None => None,
        Some(infos) => {
            let cur = chosen_variant(infos, value);
            Some(NodeView {
                key,
                kind: KindView::RadioGroup { variants: infos.map_values(|vi: (Seq<char>, Option<Json>)| vi.0) },
                value,
                children: radio_items(infos, cur.0, cur.1, defs, depth),
                depth,
                description: descr,
                inner_schema: None,
            })
        },
    }
}

/// Whether some variant of `infos` is named `name`.
pub open spec fn names_variant(infos: Infos, name: Seq<char>) -> bool {
    exists|i: int| 0 <= i < infos.len() && (#[trigger] infos[i]).0 == name
}

/// The variant that a radio group selects, with its data: the one the
/// value names, or else the first variant (with no data), so that one
/// item is always selected.
pub open spec fn chosen_variant(infos: Infos, value: Json) -> (Seq<char>, Option<Json>) {
    let cur = current_variant(value);
    if names_variant(infos, cur.0) {
        cur
    } else {
        (infos[0].0, None)
    }
}

/// The radio items of the variants `infos`.
pub open spec fn radio_items(
    infos: Infos,
    cur_name: Seq<char>,
    cur_inner: Option<Json>,
    defs: Entries,
    depth: usize,
) -> Seq<NodeView>
    decreases DEPTH_CAP - depth, 0int, infos.len(),
{
    if infos.len() == 0 {
        Seq::empty()
    } else {
        radio_items(infos.drop_last(), cur_name, cur_inner, defs, depth).push(
            radio_item(infos.last(), cur_name, cur_inner, defs, depth),
        )
    }
}

/// The radio item of variant `vi`; a selected struct variant holds its
/// fields.
pub open spec fn radio_item(
    vi: (Seq<char>, Option<Json>),
    cur_name: Seq<char>,
    cur_inner: Option<Json>,
    defs: Entries,
    depth: usize,
) -> NodeView
    decreases DEPTH_CAP - depth, 0int, 0int,
{
    let is_selected = vi.0 == cur_name;
    let is_struct = vi.1 is Some;
    let fields = if is_selected && is_struct && depth + 2 <= DEPTH_CAP {
        let iv = match cur_inner {
            Some(x) => x,
            None => Json::Null,
        };
        variant_fields(resolved(vi.1->Some_0, defs), iv, defs, (depth + 2) as usize)
    } else {
        Seq::empty()
    };
    NodeView {
        key: vi.0,
        kind: KindView::RadioItem { selected: is_selected, is_struct },
        value: Json::Bool(is_selected),
        children: fields,
        depth: (depth + 1) as usize,
        description: None,
        inner_schema: vi.1,
    }
}

/// The field nodes of a selected struct variant.
pub open spec fn variant_fields(rs: Json, value: Json, defs: Entries, depth: usize) -> Seq<NodeView>
    decreases DEPTH_CAP - depth, 5int, 0int,
{
    match get_object(rs, "properties"@) {
        Some(p) => built_children(p, rs, defs, json_as_object(value), depth),
        None => Seq::empty(),
    }
}

/// The top-level nodes for a root schema and a config value.
pub open spec fn built_tree(root: Json, value: Json) -> Seq<NodeView> {
    let defs = match get_object(root, "$defs"@) {
        Some(d) => d,
        None => Seq::empty(),
    };
    match get_object(root, "properties"@) {
        Some(props) => built_children(props, root, defs, json_as_object(value), 0),
        None => Seq::empty(),
    }
}


// ---------------------------------------------------------------------
// Reading schemas, executable
// ---------------------------------------------------------------------

pub open spec fn ev(e: Seq<(String, JsonValue)>) -> Entries {
    json_entries_view(e)
}

pub open spec fn opt_entries_view(o: Option<&Vec<(String, JsonValue)>>) -> Option<Entries> {
    match o {
        Some(e) => Some(json_entries_view(e@)),
        None => None,
    }
}

pub open spec fn opt_node_view(o: Option<ConfigNode>) -> Option<NodeView> {
    match o {
        Some(n) => Some(n@),
        None => None,
    }
}

/// The string under `key` of an object value.
pub fn get_str_exec<'a>(v: &'a JsonValue, key: &str) -> (r: Option<&'a String>)
    ensures
        r matches Some(s) ==> get_str(v@, key@) == Some(s@),
        r is None ==> get_str(v@, key@) is None,
{
    match v.get(key) {
        Some(x) => x.as_str(),
        None => None,
    }
}

/// The array under `key` of an object value.
pub fn get_array_exec<'a>(v: &'a JsonValue, key: &str) -> (r: Option<&'a Vec<JsonValue>>)
    ensures
        r matches Some(a) ==> get_array(v@, key@) == Some(json_seq_view(a@)),
        r is None ==> get_array(v@, key@) is None,
{
    match v.get(key) {
        Some(x) => x.as_array(),
        None => None,
    }
}

/// The object under `key` of an object value.
pub fn get_object_exec<'a>(v: &'a JsonValue, key: &str) -> (r: Option<&'a Vec<(String, JsonValue)>>)
    ensures
        r matches Some(e) ==> get_object(v@, key@) == Some(json_entries_view(e@)),
        r is None ==> get_object(v@, key@) is None,
{
    match v.get(key) {
        Some(x) => x.as_object(),
        None => None,
    }
}

/// A copy of an optional string.
pub fn clone_opt_string(o: &Option<String>) -> (r: Option<String>)
    ensures
        opt_str_view(r) == opt_str_view(*o),
{
    match o {
        Some(s) => Some(s.clone()),
        None => None,
    }
}

/// A copy of an optional value.
pub fn clone_opt_json(o: &Option<JsonValue>) -> (r: Option<JsonValue>)
    ensures
        opt_json_view(r) == opt_json_view(*o),
{
    match o {
        Some(v) => Some(v.deep_clone()),
        None => None,
    }
}

/// Whether `v` holds a string with the characters of `s`.
pub fn contains_string(v: &Vec<String>, s: &str) -> (r: bool)
    ensures
        r == strs_view(v@).contains(s@),
{
    let mut i: usize = 0;
    while i < v.len()
        invariant
            i <= v@.len(),
            forall|j: int| 0 <= j < i ==> (#[trigger] v@[j])@ != s@,
        decreases v@.len() - i,
    {
        if str_eq(v[i].as_str(), s) {
            assert(strs_view(v@)[i as int] == s@);
            return true;
        }
        i = i + 1;
    }
    proof {
        if strs_view(v@).contains(s@) {
            let j = choose|j: int| 0 <= j < strs_view(v@).len() && strs_view(v@)[j] == s@;
            assert(v@[j]@ == s@);
        }
    }
    false
}

/// `ref_path.strip_prefix("#/$defs/").unwrap_or(ref_path)`.
#[verifier::loop_isolation(false)]
pub fn strip_defs_prefix_exec(r: &str) -> (s: String)
    ensures
        s@ == strip_defs_prefix(r@),
{
    proof {
        reveal(strip_defs_prefix);
    }
    let rc = crate::text::chars_of(r);
    let pc = crate::text::chars_of("#/$defs/");
    if pc.len() <= rc.len() {
        let mut i: usize = 0;
        while i < pc.len()
            invariant
                pc@ == "#/$defs/"@,
                rc@ == r@,
                pc@.len() <= rc@.len(),
                i <= pc@.len(),
                forall|j: int| 0 <= j < i ==> rc@[j] == pc@[j],
            decreases pc@.len() - i,
        {
            if rc[i] != pc[i] {
                proof {
                    assert(rc@.take(pc@.len() as int)[i as int] != pc@[i as int]);
                }
                return string_of(r);
            }
            i = i + 1;
        }
        proof {
            assert(rc@.take(pc@.len() as int) =~= pc@);
            assert(rc@.subrange(pc@.len() as int, rc@.len() as int) =~= rc@.skip(pc@.len() as int));
        }
        crate::text::string_from_chars(&rc, pc.len(), rc.len())
    } else {
        string_of(r)
    }
}

/// Follows a `$ref` into the definitions, when it names one.
#[verifier::rlimit(30)]
pub fn resolve_schema<'a>(schema: &'a JsonValue, defs: &'a Vec<(String, JsonValue)>) -> (r: &'a JsonValue)
    ensures
        r@ == resolved(schema@, ev(defs@)),
{
    proof {
        reveal(resolved);
    }
    match schema.get("$ref") {
        Some(JsonValue::String(ref_path)) => {
            let name = strip_defs_prefix_exec(ref_path.as_str());
            match entries_get(defs, name.as_str()) {
                Some(d) => d,
                None => schema,
            }
        },
        _ => schema,
    }
}

/// If the schema describes a scalar type, its node kind.
pub fn scalar_node_kind(schema: &JsonValue) -> (k: Option<NodeKind>)
    ensures
        match k {
            Some(x) => scalar_kind_of(schema@) == Some(x@),
            None => scalar_kind_of(schema@) is None,
        },
{
    proof {
        reveal(scalar_kind_of);
    }
    match get_str_exec(schema, "type") {
        Some(t) => if str_eq(t.as_str(), "string") {
            Some(NodeKind::String)
        } else if str_eq(t.as_str(), "integer") {
            Some(NodeKind::Integer)
        } else if str_eq(t.as_str(), "number") {
            Some(NodeKind::Float)
        } else if str_eq(t.as_str(), "boolean") {
            Some(NodeKind::Bool)
        } else {
            None
        },
        None => None,
    }
}

/// The type name of a schema (see `type_name_of`).
pub fn schema_type_name(r: &JsonValue) -> (t: String)
    ensures
        t@ == type_name_of(r@),
{
    proof {
        reveal(type_name_of);
    }
    match r.get("type") {
        Some(JsonValue::String(s)) => s.clone(),
        Some(JsonValue::Array(a)) => {
            proof {
                lemma_json_seq_view(a@);
            }
            if a.len() == 1 {
                match &a[0] {
                    JsonValue::String(s) => s.clone(),
                    _ => String::new(),
                }
            } else {
                String::new()
            }
        },
        _ => String::new(),
    }
}

/// The strings among `a`, in order.
pub fn strings_in(a: &Vec<JsonValue>) -> (r: Vec<String>)
    ensures
        strs_view(r@) == strings_of(json_seq_view(a@)),
{
    let ghost av = json_seq_view(a@);
    proof {
        lemma_json_seq_view(a@);
    }
    let mut r: Vec<String> = Vec::new();
    let mut i: usize = 0;
    while i < a.len()
        invariant
            i <= a@.len(),
            av == json_seq_view(a@),
            av.len() == a@.len(),
            forall|j: int| 0 <= j < a@.len() ==> #[trigger] av[j] == json_view(a@[j]),
            strs_view(r@) == strings_of(av.take(i as int)),
        decreases a@.len() - i,
    {
        proof {
            assert(av.take(i + 1).drop_last() =~= av.take(i as int));
            assert(av.take(i + 1).last() == av[i as int]);
        }
        match &a[i] {
            JsonValue::String(s) => {
                let ghost old_r = r@;
                r.push(s.clone());
                proof {
                    assert(strs_view(r@) =~= strs_view(old_r).push(s@));
                }
            },
            _ => {},
        }
        i = i + 1;
    }
    proof {
        assert(av.take(a@.len() as int) =~= av);
    }
    r
}

/// The string `"const"` values among `a`, in order.
pub fn consts_in(a: &Vec<JsonValue>) -> (r: Vec<String>)
    ensures
        strs_view(r@) == consts_of(json_seq_view(a@)),
{
    let ghost av = json_seq_view(a@);
    proof {
        lemma_json_seq_view(a@);
    }
    let mut r: Vec<String> = Vec::new();
    let mut i: usize = 0;
    while i < a.len()
        invariant
            i <= a@.len(),
            av == json_seq_view(a@),
            av.len() == a@.len(),
            forall|j: int| 0 <= j < a@.len() ==> #[trigger] av[j] == json_view(a@[j]),
            strs_view(r@) == consts_of(av.take(i as int)),
        decreases a@.len() - i,
    {
        proof {
            assert(av.take(i + 1).drop_last() =~= av.take(i as int));
            assert(av.take(i + 1).last() == av[i as int]);
        }
        match get_str_exec(&a[i], "const") {
            Some(s) => {
                let ghost old_r = r@;
                r.push(s.clone());
                proof {
                    assert(strs_view(r@) =~= strs_view(old_r).push(s@));
                }
            },
            None => {},
        }
        i = i + 1;
    }
    proof {
        assert(av.take(a@.len() as int) =~= av);
    }
    r
}

/// The variants of a unit enum schema (see `enum_variants_of`).
pub fn extract_enum_variants(schema: &JsonValue) -> (r: Option<Vec<String>>)
    ensures
        match r {
            Some(v) => enum_variants_of(schema@) == Some(strs_view(v@)),
            None => enum_variants_of(schema@) is None,
        },
{
    proof {
        reveal(enum_variants_of);
    }
    if let Some(a) = get_array_exec(schema, "enum") {
        let vs = strings_in(a);
        if vs.len() > 0 {
            return Some(vs);
        }
    }
    if let Some(a) = get_array_exec(schema, "oneOf") {
        let vs = consts_in(a);
        if vs.len() > 0 {
            return Some(vs);
        }
    }
    None
}

pub open spec fn infos_view(v: Seq<(String, Option<JsonValue>)>) -> Infos {
    v.map_values(|x: (String, Option<JsonValue>)| (x.0@, opt_json_view(x.1)))
}

/// Adds a unit variant for each of `names`.
pub fn push_unit_infos(r: &mut Vec<(String, Option<JsonValue>)>, names: &Vec<String>)
    ensures
        infos_view(final(r)@) == infos_view(old(r)@) + unit_infos(strs_view(names@)),
{
    let ghost p = infos_view(r@);
    let mut j: usize = 0;
    while j < names.len()
        invariant
            j <= names@.len(),
            infos_view(r@) == p + unit_infos(strs_view(names@).take(j as int)),
        decreases names@.len() - j,
    {
        let ghost before = r@;
        r.push((names[j].clone(), None));
        proof {
            assert(strs_view(names@).take(j + 1) =~= strs_view(names@).take(j as int).push(names@[j as int]@));
            assert(infos_view(r@) =~= infos_view(before).push((names@[j as int]@, None)));
            assert(unit_infos(strs_view(names@).take(j + 1)) =~= unit_infos(strs_view(names@).take(j as int)).push((names@[j as int]@, None)));
        }
        j = j + 1;
    }
    proof {
        assert(strs_view(names@).take(names@.len() as int) =~= strs_view(names@));
    }
}

/// Adds the variants described by one resolved `"oneOf"` entry.
pub fn push_infos_of_entry(r: &mut Vec<(String, Option<JsonValue>)>, re: &JsonValue, defs: &Vec<(String, JsonValue)>)
    ensures
        infos_view(final(r)@) == infos_step(infos_view(old(r)@), re@, ev(defs@)),
{
    let ghost p = infos_view(r@);
    match get_str_exec(re, "const") {
        Some(c) => {
            r.push((c.clone(), None));
            proof {
                assert(infos_view(r@) =~= p.push((c@, None)));
            }
        },
        None => match get_array_exec(re, "enum") {
            Some(ea) => {
                let names = strings_in(ea);
                push_unit_infos(r, &names);
            },
            None => match get_object_exec(re, "properties") {
                Some(props) => {
                    proof {
                        lemma_json_entries_view(props@);
                    }
                    if props.len() == 1 {
                        let vs = resolve_schema(&props[0].1, defs);
                        r.push((props[0].0.clone(), Some(vs.deep_clone())));
                        proof {
                            assert(infos_view(r@) =~= p.push((props@[0].0@, Some(vs@))));
                        }
                    }
                },
                None => {},
            },
        },
    }
}

/// The variants described by the entries of a `"oneOf"`.
pub fn infos_in(arr: &Vec<JsonValue>, defs: &Vec<(String, JsonValue)>) -> (r: Vec<(String, Option<JsonValue>)>)
    ensures
        infos_view(r@) == infos_of(json_seq_view(arr@), ev(defs@)),
{
    let ghost av = json_seq_view(arr@);
    proof {
        lemma_json_seq_view(arr@);
    }
    let mut r: Vec<(String, Option<JsonValue>)> = Vec::new();
    let mut i: usize = 0;
    while i < arr.len()
        invariant
            i <= arr@.len(),
            av == json_seq_view(arr@),
            av.len() == arr@.len(),
            forall|j: int| 0 <= j < arr@.len() ==> #[trigger] av[j] == json_view(arr@[j]),
            infos_view(r@) == infos_of(av.take(i as int), ev(defs@)),
        decreases arr@.len() - i,
    {
        proof {
            assert(av.take(i + 1).drop_last() =~= av.take(i as int));
            assert(av.take(i + 1).last() == av[i as int]);
        }
        let re = resolve_schema(&arr[i], defs);
        push_infos_of_entry(&mut r, re, defs);
        i = i + 1;
    }
    proof {
        assert(av.take(arr@.len() as int) =~= av);
    }
    r
}

/// The variants of an enum schema (see `variant_infos_of`).
pub fn extract_variant_infos(r: &JsonValue, defs: &Vec<(String, JsonValue)>) -> (out: Option<Vec<(String, Option<JsonValue>)>>)
    ensures
        match out {
            Some(v) => variant_infos_of(r@, ev(defs@)) == Some(infos_view(v@)),
            None => variant_infos_of(r@, ev(defs@)) is None,
        },
{
    proof {
        reveal(variant_infos_of);
    }
    if let Some(a) = get_array_exec(r, "oneOf") {
        let infos = infos_in(a, defs);
        if infos.len() > 0 {
            return Some(infos);
        }
    }
    if let Some(a) = get_array_exec(r, "enum") {
        let names = strings_in(a);
        let mut infos: Vec<(String, Option<JsonValue>)> = Vec::new();
        push_unit_infos(&mut infos, &names);
        proof {
            assert(infos_view(Seq::<(String, Option<JsonValue>)>::empty()) =~= Seq::<(Seq<char>, Option<Json>)>::empty());
            assert(Seq::<(Seq<char>, Option<Json>)>::empty() + unit_infos(strs_view(names@)) =~= unit_infos(strs_view(names@)));
        }
        if infos.len() > 0 {
            return Some(infos);
        }
    }
    None
}

/// Whether `key` has an entry in `e`.
pub fn entries_has(e: &Vec<(String, JsonValue)>, key: &str) -> (r: bool)
    ensures
        r == obj_has(ev(e@), key@),
{
    entries_get(e, key).is_some()
}

/// Field order (see `ordered_keys`).
pub fn field_order(props: &Vec<(String, JsonValue)>, parent: &JsonValue) -> (keys: Vec<String>)
    ensures
        strs_view(keys@) == ordered_keys(ev(props@), parent@),
{
    proof {
        reveal(ordered_keys);
    }
    let mut keys: Vec<String> = Vec::new();
    let ghost pv = ev(props@);
    proof {
        lemma_json_entries_view(props@);
    }
    if let Some(a) = get_array_exec(parent, "required") {
        let req = strings_in(a);
        let mut i: usize = 0;
        while i < req.len()
            invariant
                i <= req@.len(),
                pv == ev(props@),
                strs_view(keys@) == present_only(strs_view(req@).take(i as int), pv),
            decreases req@.len() - i,
        {
            proof {
                assert(strs_view(req@).take(i + 1).drop_last() =~= strs_view(req@).take(i as int));
                assert(strs_view(req@).take(i + 1).last() == req@[i as int]@);
            }
            if entries_has(props, req[i].as_str()) {
                let ghost before = keys@;
                keys.push(req[i].clone());
                proof {
                    assert(strs_view(keys@) =~= strs_view(before).push(req@[i as int]@));
                }
            }
            i = i + 1;
        }
        proof {
            assert(strs_view(req@).take(req@.len() as int) =~= strs_view(req@));
        }
    }
    let ghost first = strs_view(keys@);
    let mut i: usize = 0;
    while i < props.len()
        invariant
            i <= props@.len(),
            pv == ev(props@),
            pv.len() == props@.len(),
            forall|j: int| 0 <= j < props@.len() ==> #[trigger] pv[j] == (props@[j].0@, json_view(props@[j].1)),
            strs_view(keys@) == add_missing(first, entry_keys(pv).take(i as int)),
        decreases props@.len() - i,
    {
        proof {
            assert(entry_keys(pv).take(i + 1).drop_last() =~= entry_keys(pv).take(i as int));
            assert(entry_keys(pv).take(i + 1).last() == props@[i as int].0@);
        }
        if !contains_string(&keys, props[i].0.as_str()) {
            let ghost before = keys@;
            keys.push(props[i].0.clone());
            proof {
                assert(strs_view(keys@) =~= strs_view(before).push(props@[i as int].0@));
            }
        }
        i = i + 1;
    }
    proof {
        assert(entry_keys(pv).take(props@.len() as int) =~= entry_keys(pv));
        let first2 = match get_array(parent@, "required"@) {
            Some(a) => present_only(strings_of(a), pv),
            None => Seq::empty(),
        };
        assert(first == first2);
    }
    keys
}

/// The value of field `k` of the object, or null.
pub fn field_value_of(value_obj: Option<&Vec<(String, JsonValue)>>, k: &str) -> (v: JsonValue)
    ensures
        v@ == field_value(opt_entries_view(value_obj), k@),
{
    match value_obj {
        Some(o) => match entries_get(o, k) {
            Some(v) => v.deep_clone(),
            None => JsonValue::Null,
        },
        None => JsonValue::Null,
    }
}

/// Whether `v` is a schema of type `"null"`.
pub fn is_null_schema_exec(v: &JsonValue) -> (r: bool)
    ensures
        r == is_null_schema(v@),
{
    match get_str_exec(v, "type") {
        Some(t) => str_eq(t.as_str(), "null"),
        None => false,
    }
}

/// A copy of a list of strings.
pub fn copy_strings(v: &Vec<String>) -> (r: Vec<String>)
    ensures
        strs_view(r@) == strs_view(v@),
{
    let mut r: Vec<String> = Vec::new();
    let mut i: usize = 0;
    while i < v.len()
        invariant
            i <= v@.len(),
            r@.len() == i,
            forall|j: int| 0 <= j < i ==> (#[trigger] r@[j])@ == v@[j]@,
        decreases v@.len() - i,
    {
        let x = v[i].clone();
        r.push(x);
        i = i + 1;
    }
    proof {
        assert(strs_view(r@) =~= strs_view(v@));
    }
    r
}

/// A copy of a node kind.
pub fn copy_kind(k: &NodeKind) -> (r: NodeKind)
    ensures
        r@ == k@,
    decreases k,
{
    match k {
        NodeKind::String => NodeKind::String,
        NodeKind::Integer => NodeKind::Integer,
        NodeKind::Float => NodeKind::Float,
        NodeKind::Bool => NodeKind::Bool,
        NodeKind::Option { is_some, inner_kind } => {
            let inner = match inner_kind {
                Some(b) => {
                    proof {
                        assert(decreases_to!(k => inner_kind));
                    }
                    Some(Box::new(copy_kind(&**b)))
                },
                None => None,
            };
            NodeKind::Option { is_some: *is_some, inner_kind: inner }
        },
        NodeKind::Struct { struct_name } => NodeKind::Struct { struct_name: struct_name.clone() },
        NodeKind::RadioGroup { variants } => NodeKind::RadioGroup { variants: copy_strings(variants) },
        NodeKind::RadioItem { selected, is_struct } => NodeKind::RadioItem { selected: *selected, is_struct: *is_struct },
        NodeKind::Checkboxes { variants } => NodeKind::Checkboxes { variants: copy_strings(variants) },
        NodeKind::CheckboxItem { checked } => NodeKind::CheckboxItem { checked: *checked },
    }
}

/// A copy of a node and everything below it.
pub fn copy_node(n: &ConfigNode) -> (r: ConfigNode)
    ensures
        node_view(r) == node_view(*n),
    decreases n, 1int,
{
    proof {
        assert(decreases_to!(n => n.children));
    }
    ConfigNode {
        key: n.key.clone(),
        kind: copy_kind(&n.kind),
        value: n.value.deep_clone(),
        children: copy_nodes(&n.children),
        depth: n.depth,
        description: clone_opt_string(&n.description),
        inner_schema: clone_opt_json(&n.inner_schema),
    }
}

/// A copy of a list of nodes.
pub fn copy_nodes(v: &Vec<ConfigNode>) -> (r: Vec<ConfigNode>)
    ensures
        nodes_view(r@) == nodes_view(v@),
    decreases v, 0int,
{
    let mut r: Vec<ConfigNode> = Vec::new();
    let mut i: usize = 0;
    proof {
        lemma_nodes_view(v@);
    }
    while i < v.len()
        invariant
            i <= v@.len(),
            nodes_view(v@).len() == v@.len(),
            forall|j: int| 0 <= j < v@.len() ==> #[trigger] nodes_view(v@)[j] == node_view(v@[j]),
            r@.len() == i,
            forall|j: int| 0 <= j < i ==> #[trigger] node_view(r@[j]) == node_view(v@[j]),
        decreases v@.len() - i,
    {
        proof {
            assert(decreases_to!(v => v@));
            assert(decreases_to!(v@ => v@[i as int]));
        }
        let x = copy_node(&v[i]);
        let ghost before = r@;
        r.push(x);
        proof {
            assert forall|j: int| 0 <= j < i + 1 implies #[trigger] node_view(r@[j]) == node_view(v@[j]) by {
                if j < i {
                    assert(r@[j] == before[j]);
                }
            }
        }
        i = i + 1;
    }
    proof {
        lemma_nodes_view(r@);
        assert(nodes_view(r@) =~= nodes_view(v@));
    }
    r
}

impl Clone for ConfigNode {
    /// A copy of this node and everything below it (see `copy_node`).
    fn clone(&self) -> (r: ConfigNode)
        ensures
            node_view(r) == node_view(*self),
    {
        copy_node(self)
    }
}

impl Clone for NodeKind {
    /// A copy of this kind (see `copy_kind`).
    fn clone(&self) -> (r: NodeKind)
        ensures
            r@ == self@,
    {
        copy_kind(self)
    }
}

/// The boxed form of an optional kind.
pub fn box_kind(k: Option<NodeKind>) -> (r: Option<Box<NodeKind>>)
    ensures
        match r {
            Some(b) => k is Some && (*b)@ == k->Some_0@,
            None => k is None,
        },
{
    match k {
        Some(x) => Some(Box::new(x)),
        None => None,
    }
}


// ---------------------------------------------------------------------
// The builder, executable
// ---------------------------------------------------------------------

/// The nodes for the properties `props` of `parent`, in field order.
fn build_children(
    props: &Vec<(String, JsonValue)>,
    parent: &JsonValue,
    defs: &Vec<(String, JsonValue)>,
    value_obj: Option<&Vec<(String, JsonValue)>>,
    depth: usize,
) -> (r: Vec<ConfigNode>)
    requires
        depth <= DEPTH_CAP,
    ensures
        nodes_view(r@) == built_children(ev(props@), parent@, ev(defs@), opt_entries_view(value_obj), depth),
    decreases DEPTH_CAP - depth, 4int, 0int,
{
    let keys = field_order(props, parent);
    let ghost kv = strs_view(keys@);
    let mut out: Vec<ConfigNode> = Vec::new();
    let mut i: usize = 0;
    while i < keys.len()
        invariant
            i <= keys@.len(),
            depth <= DEPTH_CAP,
            kv == strs_view(keys@),
            kv == ordered_keys(ev(props@), parent@),
            nodes_view(out@) == built_fields(kv.take(i as int), ev(props@), ev(defs@), opt_entries_view(value_obj), depth),
        decreases keys@.len() - i,
    {
        proof {
            assert(kv.take(i + 1).drop_last() =~= kv.take(i as int));
            assert(kv.take(i + 1).last() == keys@[i as int]@);
        }
        match entries_get(props, keys[i].as_str()) {
            Some(fs) => {
                let fv = field_value_of(value_obj, keys[i].as_str());
                let n = build_node(keys[i].as_str(), fs, &fv, defs, depth);
                let ghost before = out@;
                out.push(n);
                proof {
                    lemma_nodes_view_push(before, n);
                }
            },
            None => {},
        }
        i = i + 1;
    }
    proof {
        assert(kv.take(keys@.len() as int) =~= kv);
    }
    out
}

/// The node for field `key` (see `built_node`).
#[verifier::rlimit(60)]
fn build_node(
    key: &str,
    schema: &JsonValue,
    value: &JsonValue,
    defs: &Vec<(String, JsonValue)>,
    depth: usize,
) -> (n: ConfigNode)
    requires
        depth <= DEPTH_CAP,
    ensures
        n@ == built_node(key@, schema@, value@, ev(defs@), depth),
    decreases DEPTH_CAP - depth, 2int, 0int,
{
    let r = resolve_schema(schema, defs);
    let descr: Option<String> = match get_str_exec(r, "description") {
        Some(s) => Some(s.clone()),
        None => None,
    };
    if let Some(any_of) = get_array_exec(r, "anyOf") {
        if let Some(n) = try_build_option(key, any_of, value, defs, depth, &descr) {
            return n;
        }
    }
    if let Some(ta) = get_array_exec(r, "type") {
        if let Some(n) = try_build_option_from_type_array(key, ta, value, depth, &descr) {
            return n;
        }
    }
    if let Some(n) = try_build_enum(key, r, value, defs, depth, &descr) {
        return n;
    }
    if let Some(n) = try_build_checkboxes(key, r, value, defs, depth, &descr) {
        return n;
    }
    build_plain_node(key, r, value, defs, depth, descr)
}

/// A scalar or struct node, by the schema's type name (see `plain_node`).
#[verifier::rlimit(80)]
fn build_plain_node(
    key: &str,
    r: &JsonValue,
    value: &JsonValue,
    defs: &Vec<(String, JsonValue)>,
    depth: usize,
    descr: Option<String>,
) -> (n: ConfigNode)
    requires
        depth <= DEPTH_CAP,
    ensures
        n@ == plain_node(key@, r@, value@, ev(defs@), depth, opt_str_view(descr)),
    decreases DEPTH_CAP - depth, 1int, 0int,
{
    let t = schema_type_name(r);
    let kind = if str_eq(t.as_str(), "string") {
        NodeKind::String
    } else if str_eq(t.as_str(), "integer") {
        NodeKind::Integer
    } else if str_eq(t.as_str(), "number") {
        NodeKind::Float
    } else if str_eq(t.as_str(), "boolean") {
        NodeKind::Bool
    } else if str_eq(t.as_str(), "object") {
        let struct_name = match get_str_exec(r, "title") {
            Some(s) => s.clone(),
            None => string_of("object"),
        };
        let children = match get_object_exec(r, "properties") {
            Some(p) => if depth < DEPTH_CAP {
                build_children(p, r, defs, value.as_object(), depth + 1)
            } else {
                Vec::new()
            },
            None => Vec::new(),
        };
        proof {
            assert(nodes_view(Seq::<ConfigNode>::empty()) =~= Seq::<NodeView>::empty());
        }
        return ConfigNode {
            key: string_of(key),
            kind: NodeKind::Struct { struct_name },
            value: value.deep_clone(),
            children,
            depth,
            description: descr,
            inner_schema: None,
        };
    } else {
        NodeKind::String
    };
    proof {
        assert(nodes_view(Seq::<ConfigNode>::empty()) =~= Seq::<NodeView>::empty());
    }
    ConfigNode {
        key: string_of(key),
        kind,
        value: value.deep_clone(),
        children: Vec::new(),
        depth,
        description: descr,
        inner_schema: None,
    }
}

/// An `Option<T>` field given as `"anyOf": [T, {"type": "null"}]`.
#[verifier::rlimit(40)]
fn try_build_option(
    key: &str,
    any_of: &Vec<JsonValue>,
    value: &JsonValue,
    defs: &Vec<(String, JsonValue)>,
    depth: usize,
    descr: &Option<String>,
) -> (r: Option<ConfigNode>)
    requires
        depth <= DEPTH_CAP,
    ensures
        opt_node_view(r) == option_node(key@, json_seq_view(any_of@), value@, ev(defs@), depth, opt_str_view(*descr)),
    decreases DEPTH_CAP - depth, 1int, 0int,
{
    let ghost av = json_seq_view(any_of@);
    proof {
        lemma_json_seq_view(any_of@);
    }
    let mut has_null = false;
    let mut i: usize = 0;
    while i < any_of.len()
        invariant
            i <= any_of@.len(),
            av == json_seq_view(any_of@),
            av.len() == any_of@.len(),
            forall|j: int| 0 <= j < any_of@.len() ==> #[trigger] av[j] == json_view(any_of@[j]),
            has_null == exists|j: int| 0 <= j < i && is_null_schema(#[trigger] av[j]),
        decreases any_of@.len() - i,
    {
        if is_null_schema_exec(&any_of[i]) {
            has_null = true;
        }
        proof {
            if is_null_schema(av[i as int]) {
                assert(exists|j: int| 0 <= j < i + 1 && is_null_schema(#[trigger] av[j]));
            } else if exists|j: int| 0 <= j < i + 1 && is_null_schema(#[trigger] av[j]) {
                let j = choose|j: int| 0 <= j < i + 1 && is_null_schema(#[trigger] av[j]);
                assert(j < i);
            }
        }
        i = i + 1;
    }
    if !has_null || any_of.len() < 2 {
        return None;
    }
    let mut k: usize = 0;
    proof {
        assert(av.skip(0) =~= av);
    }
    while k < any_of.len() && is_null_schema_exec(&any_of[k])
        invariant
            k <= any_of@.len(),
            av == json_seq_view(any_of@),
            av.len() == any_of@.len(),
            forall|j: int| 0 <= j < any_of@.len() ==> #[trigger] av[j] == json_view(any_of@[j]),
            first_non_null(av) == first_non_null(av.skip(k as int)),
        decreases any_of@.len() - k,
    {
        proof {
            assert(av.skip(k as int)[0] == av[k as int]);
            assert(av.skip(k as int).drop_first() =~= av.skip(k + 1));
        }
        k = k + 1;
    }
    if k == any_of.len() {
        proof {
            assert(av.skip(k as int).len() == 0);
        }
        return None;
    }
    proof {
        assert(av.skip(k as int)[0] == av[k as int]);
    }
    let inner = &any_of[k];
    let ri = resolve_schema(inner, defs);
    let is_some = !value.is_null();
    let ik = scalar_node_kind(ri);
    let children = if ik.is_some() {
        Vec::new()
    } else if is_some && depth < DEPTH_CAP {
        build_inner_children(ri, value, defs, depth + 1)
    } else {
        Vec::new()
    };
    proof {
        assert(nodes_view(Seq::<ConfigNode>::empty()) =~= Seq::<NodeView>::empty());
    }
    Some(ConfigNode {
        key: string_of(key),
        kind: NodeKind::Option { is_some, inner_kind: box_kind(ik) },
        value: value.deep_clone(),
        children,
        depth,
        description: clone_opt_string(descr),
        inner_schema: Some(inner.deep_clone()),
    })
}

/// An `Option<T>` field given as `"type": [T, "null"]`.
fn try_build_option_from_type_array(
    key: &str,
    type_array: &Vec<JsonValue>,
    value: &JsonValue,
    depth: usize,
    descr: &Option<String>,
) -> (r: Option<ConfigNode>)
    ensures
        opt_node_view(r) == type_array_option_node(key@, json_seq_view(type_array@), value@, depth, opt_str_view(*descr)),
{
    proof {
        reveal(type_array_option_node);
    }
    let types = strings_in(type_array);
    let ghost tv = strs_view(types@);
    if !contains_string(&types, "null") || types.len() < 2 {
        return None;
    }
    let mut k: usize = 0;
    proof {
        assert(tv.skip(0) =~= tv);
    }
    while k < types.len() && str_eq(types[k].as_str(), "null")
        invariant
            k <= types@.len(),
            tv == strs_view(types@),
            first_non_null_name(tv) == first_non_null_name(tv.skip(k as int)),
        decreases types@.len() - k,
    {
        proof {
            assert(tv.skip(k as int)[0] == tv[k as int]);
            assert(tv.skip(k as int).drop_first() =~= tv.skip(k + 1));
        }
        k = k + 1;
    }
    if k == types.len() {
        proof {
            assert(tv.skip(k as int).len() == 0);
        }
        return None;
    }
    proof {
        assert(tv.skip(k as int)[0] == tv[k as int]);
    }
    let mut entries: Vec<(String, JsonValue)> = Vec::new();
    entries.push((string_of("type"), JsonValue::String(types[k].clone())));
    let inner = JsonValue::Object(entries);
    proof {
        assert(entries@.drop_last() =~= Seq::<(String, JsonValue)>::empty());
        lemma_json_entries_view(entries@);
        assert(json_entries_view(entries@) =~= seq![("type"@, Json::Str(tv[k as int]))]);
    }
    let is_some = !value.is_null();
    let ik = scalar_node_kind(&inner);
    proof {
        assert(nodes_view(Seq::<ConfigNode>::empty()) =~= Seq::<NodeView>::empty());
    }
    Some(ConfigNode {
        key: string_of(key),
        kind: NodeKind::Option { is_some, inner_kind: box_kind(ik) },
        value: value.deep_clone(),
        children: Vec::new(),
        depth,
        description: clone_opt_string(descr),
        inner_schema: Some(inner),
    })
}

/// The children of a present optional: the fields of a struct, or one
/// node named `value`.
#[verifier::rlimit(60)]
fn build_inner_children(
    resolved_schema: &JsonValue,
    value: &JsonValue,
    defs: &Vec<(String, JsonValue)>,
    depth: usize,
) -> (r: Vec<ConfigNode>)
    requires
        depth <= DEPTH_CAP,
    ensures
        nodes_view(r@) == inner_children(resolved_schema@, value@, ev(defs@), depth),
    decreases DEPTH_CAP - depth, 5int, 0int,
{
    let t: String = match get_str_exec(resolved_schema, "type") {
        Some(t) => t.clone(),
        None => String::new(),
    };
    if str_eq(t.as_str(), "object") {
        if let Some(props) = get_object_exec(resolved_schema, "properties") {
            return build_children(props, resolved_schema, defs, value.as_object(), depth);
        }
    }
    let n = build_node("value", resolved_schema, value, defs, depth);
    let mut out: Vec<ConfigNode> = Vec::new();
    out.push(n);
    proof {
        lemma_nodes_view_push(Seq::empty(), n);
        assert(nodes_view(Seq::<ConfigNode>::empty()) =~= Seq::<NodeView>::empty());
        assert(Seq::<ConfigNode>::empty().push(n) =~= out@);
        assert(nodes_view(out@) =~= seq![n@]);
    }
    out
}

/// A list of unit enum values, shown as checkboxes.
#[verifier::rlimit(60)]
fn try_build_checkboxes(
    key: &str,
    resolved_schema: &JsonValue,
    value: &JsonValue,
    defs: &Vec<(String, JsonValue)>,
    depth: usize,
    descr: &Option<String>,
) -> (r: Option<ConfigNode>)
    requires
        depth <= DEPTH_CAP,
    ensures
        opt_node_view(r) == checkbox_node(key@, resolved_schema@, value@, ev(defs@), depth, opt_str_view(*descr)),
{
    proof {
        reveal(checkbox_node);
    }
    let t = match get_str_exec(resolved_schema, "type") {
        Some(t) => t,
        None => return None,
    };
    if !str_eq(t.as_str(), "array") {
        return None;
    }
    let items = match resolved_schema.get("items") {
        Some(x) => x,
        None => return None,
    };
    let resolved_items = resolve_schema(items, defs);
    let variants = match extract_enum_variants(resolved_items) {
        Some(v) => v,
        None => return None,
    };
    let current: Vec<String> = match value.as_array() {
        Some(a) => strings_in(a),
        None => Vec::new(),
    };
    let ghost vv = strs_view(variants@);
    let ghost cv = strs_view(current@);
    proof {
        assert(strs_view(Seq::<String>::empty()) =~= Seq::<Seq<char>>::empty());
    }
    let mut children: Vec<ConfigNode> = Vec::new();
    let mut i: usize = 0;
    while i < variants.len()
        invariant
            i <= variants@.len(),
            depth <= DEPTH_CAP,
            vv == strs_view(variants@),
            cv == strs_view(current@),
            nodes_view(children@) == checkbox_items(vv, cv, depth).take(i as int),
        decreases variants@.len() - i,
    {
        let checked = contains_string(&current, variants[i].as_str());
        let n = ConfigNode {
            key: variants[i].clone(),
            kind: NodeKind::CheckboxItem { checked },
            value: JsonValue::Bool(checked),
            children: Vec::new(),
            depth: depth + 1,
            description: None,
            inner_schema: None,
        };
        let ghost before = children@;
        children.push(n);
        proof {
            lemma_nodes_view_push(before, n);
            assert(nodes_view(Seq::<ConfigNode>::empty()) =~= Seq::<NodeView>::empty());
            assert(n@ == checkbox_item(vv[i as int], cv, depth));
            assert(checkbox_items(vv, cv, depth).take(i + 1) =~= checkbox_items(vv, cv, depth).take(i as int).push(checkbox_item(vv[i as int], cv, depth)));
        }
        i = i + 1;
    }
    proof {
        assert(checkbox_items(vv, cv, depth).take(variants@.len() as int) =~= checkbox_items(vv, cv, depth));
    }
    Some(ConfigNode {
        key: string_of(key),
        kind: NodeKind::Checkboxes { variants },
        value: value.deep_clone(),
        children,
        depth,
        description: clone_opt_string(descr),
        inner_schema: None,
    })
}

/// An enum, shown as a radio group of its variants.
#[verifier::rlimit(60)]
fn try_build_enum(
    key: &str,
    resolved_schema: &JsonValue,
    value: &JsonValue,
    defs: &Vec<(String, JsonValue)>,
    depth: usize,
    descr: &Option<String>,
) -> (r: Option<ConfigNode>)
    requires
        depth <= DEPTH_CAP,
    ensures
        opt_node_view(r) == enum_node(key@, resolved_schema@, value@, ev(defs@), depth, opt_str_view(*descr)),
    decreases DEPTH_CAP - depth, 1int, 0int,
{
    proof {
        reveal(current_variant);
    }
    let infos = match extract_variant_infos(resolved_schema, defs) {
        Some(v) => v,
        None => return None,
    };
    let ghost iv = infos_view(infos@);
    let (cur_name, cur_inner): (String, Option<&JsonValue>) = match value {
        JsonValue::String(s) => (s.clone(), None),
        JsonValue::Object(o) => {
            proof {
                lemma_json_entries_view(o@);
            }
            if o.len() == 1 {
                (o[0].0.clone(), Some(&o[0].1))
            } else {
                (String::new(), None)
            }
        },
        _ => (String::new(), None),
    };
    let ghost cur = current_variant(value@);
    let ghost cur_inner_v: Option<Json> = match cur_inner {
        Some(x) => Some(x@),
        None => None,
    };
    assert(cur.0 == cur_name@ && cur.1 == cur_inner_v);
    proof {
        reveal(variant_infos_of);
        assert(iv.len() > 0);
    }
    let mut named = false;
    let mut j: usize = 0;
    while j < infos.len()
        invariant
            j <= infos@.len(),
            iv == infos_view(infos@),
            iv.len() == infos@.len(),
            named == exists|k: int| 0 <= k < j && (#[trigger] iv[k]).0 == cur_name@,
        decreases infos@.len() - j,
    {
        proof {
            assert(iv[j as int].0 == infos@[j as int].0@);
        }
        if crate::text::str_eq(infos[j].0.as_str(), cur_name.as_str()) {
            named = true;
        }
        proof {
            if !named {
                assert forall|k: int| 0 <= k < j + 1 implies (#[trigger] iv[k]).0 != cur_name@ by {}
            }
        }
        j = j + 1;
    }
    let (cur_name, cur_inner): (String, Option<&JsonValue>) = if named {
        (cur_name, cur_inner)
    } else {
        proof {
            assert(iv[0].0 == infos@[0].0@);
        }
        (infos[0].0.clone(), None)
    };
    let ghost cur = chosen_variant(iv, value@);
    let ghost cur_inner_v: Option<Json> = match cur_inner {
        Some(x) => Some(x@),
        None => None,
    };
    assert(cur.0 == cur_name@ && cur.1 == cur_inner_v);
    let mut variants: Vec<String> = Vec::new();
    let mut children: Vec<ConfigNode> = Vec::new();
    let mut i: usize = 0;
    while i < infos.len()
        invariant
            i <= infos@.len(),
            depth <= DEPTH_CAP,
            iv == infos_view(infos@),
            strs_view(variants@) == iv.map_values(|vi: (Seq<char>, Option<Json>)| vi.0).take(i as int),
            nodes_view(children@) == radio_items(iv.take(i as int), cur_name@, cur_inner_v, ev(defs@), depth),
            cur_inner_v == (match cur_inner { Some(x) => Some(x@), None => None::<Json> }),
        decreases infos@.len() - i,
    {
        let name = &infos[i].0;
        let n = build_radio_item(name, &infos[i].1, &cur_name, cur_inner, defs, depth);
        proof {
            assert(iv[i as int] == (infos@[i as int].0@, opt_json_view(infos@[i as int].1)));
        }
        let ghost before_v = variants@;
        variants.push(name.clone());
        let ghost before = children@;
        children.push(n);
        proof {
            lemma_nodes_view_push(before, n);
            assert(nodes_view(Seq::<ConfigNode>::empty()) =~= Seq::<NodeView>::empty());
            assert(iv.take(i + 1).drop_last() =~= iv.take(i as int));
            assert(iv.take(i + 1).last() == iv[i as int]);
            assert(iv[i as int] == (infos@[i as int].0@, opt_json_view(infos@[i as int].1)));
            assert(strs_view(variants@) =~= strs_view(before_v).push(name@));
            assert(iv.map_values(|vi: (Seq<char>, Option<Json>)| vi.0).take(i + 1)
                =~= iv.map_values(|vi: (Seq<char>, Option<Json>)| vi.0).take(i as int).push(name@));
        }
        i = i + 1;
    }
    proof {
        assert(iv.take(infos@.len() as int) =~= iv);
        assert(iv.map_values(|vi: (Seq<char>, Option<Json>)| vi.0).take(infos@.len() as int)
            =~= iv.map_values(|vi: (Seq<char>, Option<Json>)| vi.0));
    }
    Some(ConfigNode {
        key: string_of(key),
        kind: NodeKind::RadioGroup { variants },
        value: value.deep_clone(),
        children,
        depth,
        description: clone_opt_string(descr),
        inner_schema: None,
    })
}

/// The radio item of one variant (see `radio_item`).
fn build_radio_item(
    name: &String,
    inner_schema: &Option<JsonValue>,
    cur_name: &String,
    cur_inner: Option<&JsonValue>,
    defs: &Vec<(String, JsonValue)>,
    depth: usize,
) -> (n: ConfigNode)
    requires
        depth <= DEPTH_CAP,
    ensures
        n@ == radio_item(
            (name@, opt_json_view(*inner_schema)),
            cur_name@,
            match cur_inner { Some(x) => Some(x@), None => None::<Json> },
            ev(defs@),
            depth,
        ),
    decreases DEPTH_CAP - depth, 0int, 0int,
{
    let is_selected = *name == *cur_name;
    let is_struct = inner_schema.is_some();
    let fields: Vec<ConfigNode> = if is_selected && is_struct && depth <= DEPTH_CAP - 2 {
        let schema_val = inner_schema.as_ref().unwrap();
        let rs = resolve_schema(schema_val, defs);
        let null_value = JsonValue::Null;
        let inner_val: &JsonValue = match cur_inner {
            Some(x) => x,
            None => &null_value,
        };
        build_struct_variant_children(rs, inner_val, defs, depth + 2)
    } else {
        Vec::new()
    };
    proof {
        assert(nodes_view(Seq::<ConfigNode>::empty()) =~= Seq::<NodeView>::empty());
    }
    ConfigNode {
        key: name.clone(),
        kind: NodeKind::RadioItem { selected: is_selected, is_struct },
        value: JsonValue::Bool(is_selected),
        children: fields,
        depth: depth + 1,
        description: None,
        inner_schema: clone_opt_json(inner_schema),
    }
}

/// The field nodes of a selected struct variant.
fn build_struct_variant_children(
    resolved_schema: &JsonValue,
    value: &JsonValue,
    defs: &Vec<(String, JsonValue)>,
    depth: usize,
) -> (r: Vec<ConfigNode>)
    requires
        depth <= DEPTH_CAP,
    ensures
        nodes_view(r@) == variant_fields(resolved_schema@, value@, ev(defs@), depth),
    decreases DEPTH_CAP - depth, 5int, 0int,
{
    match get_object_exec(resolved_schema, "properties") {
        Some(props) => build_children(props, resolved_schema, defs, value.as_object(), depth),
        None => {
            proof {
                assert(nodes_view(Seq::<ConfigNode>::empty()) =~= Seq::<NodeView>::empty());
            }
            Vec::new()
        },
    }
}

/// Builds the node tree from a root schema and the current config value:
/// one node per property of the root schema, in field order.
pub fn build_tree(schema: &JsonValue, value: &JsonValue) -> (r: Vec<ConfigNode>)
    ensures
        nodes_view(r@) == built_tree(schema@, value@),
{
    let no_defs: Vec<(String, JsonValue)> = Vec::new();
    let defs: &Vec<(String, JsonValue)> = match get_object_exec(schema, "$defs") {
        Some(d) => d,
        None => &no_defs,
    };
    proof {
        assert(json_entries_view(no_defs@) =~= Seq::<(Seq<char>, Json)>::empty());
    }
    match get_object_exec(schema, "properties") {
        Some(props) => build_children(props, schema, defs, value.as_object(), 0),
        None => {
            proof {
                assert(nodes_view(Seq::<ConfigNode>::empty()) =~= Seq::<NodeView>::empty());
            }
            Vec::new()
        },
    }
}

/// The nodes for the properties of `parent_schema` (see `built_children`).
pub fn build_tree_from_properties(
    properties: &Vec<(String, JsonValue)>,
    parent_schema: &JsonValue,
    defs: &Vec<(String, JsonValue)>,
    value_obj: Option<&Vec<(String, JsonValue)>>,
    depth: usize,
) -> (r: Vec<ConfigNode>)
    requires
        depth <= DEPTH_CAP,
    ensures
        nodes_view(r@) == built_children(ev(properties@), parent_schema@, ev(defs@), opt_entries_view(value_obj), depth),
{
    build_children(properties, parent_schema, defs, value_obj, depth)
}

/// The node for one field (see `built_node`).
pub fn build_node_pub(
    key: &str,
    schema: &JsonValue,
    value: &JsonValue,
    defs: &Vec<(String, JsonValue)>,
    depth: usize,
) -> (n: ConfigNode)
    requires
        depth <= DEPTH_CAP,
    ensures
        n@ == built_node(key@, schema@, value@, ev(defs@), depth),
{
    build_node(key, schema, value, defs, depth)
}

// ---------------------------------------------------------------------
// Default values
// ---------------------------------------------------------------------

/// The default value of a schema, nesting at most `fuel` objects deep
/// (deeper values are null).
pub open spec fn default_value_fuel(schema: Json, defs: Entries, fuel: nat) -> Json
    decreases fuel, 2int, 0int,
{
    let r = resolved(schema, defs);
    match json_get(r, "default"@) {
        Some(d) => d,
        None => if json_get(r, "anyOf"@) is Some {
            Json::Null
        } else if get_array(r, "type"@) is Some && strings_of(get_array(r, "type"@)->Some_0).contains("null"@) {
            Json::Null
        } else if get_array(r, "oneOf"@) is Some && get_array(r, "oneOf"@)->Some_0.len() > 0
            && json_get(get_array(r, "oneOf"@)->Some_0[0], "const"@) is Some {
            json_get(get_array(r, "oneOf"@)->Some_0[0], "const"@)->Some_0
        } else if get_array(r, "enum"@) is Some && get_array(r, "enum"@)->Some_0.len() > 0 {
            get_array(r, "enum"@)->Some_0[0]
        } else {
            zero_value(r, defs, fuel)
        },
    }
}

/// The zero value of a resolved schema's type; an object holds the
/// defaults of its properties.
pub open spec fn zero_value(r: Json, defs: Entries, fuel: nat) -> Json
    decreases fuel, 1int, 0int,
{
    let t = type_name_of(r);
    if t == "string"@ {
        Json::Str(Seq::empty())
    } else if t == "integer"@ {
        Json::Number("0"@)
    } else if t == "number"@ {
        Json::Number("0.0"@)
    } else if t == "boolean"@ {
        Json::Bool(false)
    } else if t == "array"@ {
        Json::Array(Seq::empty())
    } else if t == "object"@ {
        let props = match get_object(r, "properties"@) {
            Some(p) => p,
            None => Seq::empty(),
        };
        Json::Object(default_fields(props, defs, fuel))
    } else {
        Json::Null
    }
}

/// Each property with its default value, inserted in order.
pub open spec fn default_fields(props: Entries, defs: Entries, fuel: nat) -> Entries
    decreases fuel, 0int, props.len(),
{
    if props.len() == 0 {
        Seq::empty()
    } else {
        let p = default_fields(props.drop_last(), defs, fuel);
        let v = if fuel == 0 {
            Json::Null
        } else {
            default_value_fuel(props.last().1, defs, (fuel - 1) as nat)
        };
        crate::json::obj_insert(p, props.last().0, v)
    }
}

/// The default value of a schema: its `"default"`, null for optionals,
/// the first variant of an enum, or the zero value of its type.
pub open spec fn default_value(schema: Json, defs: Entries) -> Json {
    default_value_fuel(schema, defs, usize::MAX as nat)
}

fn default_value_with_fuel(schema: &JsonValue, defs: &Vec<(String, JsonValue)>, fuel: usize) -> (v: JsonValue)
    ensures
        v@ == default_value_fuel(schema@, ev(defs@), fuel as nat),
    decreases fuel, 2int, 0int,
{
    let resolved_schema = resolve_schema(schema, defs);
    if let Some(d) = resolved_schema.get("default") {
        return d.deep_clone();
    }
    if resolved_schema.get("anyOf").is_some() {
        return JsonValue::Null;
    }
    if let Some(ta) = get_array_exec(resolved_schema, "type") {
        let types = strings_in(ta);
        if contains_string(&types, "null") {
            return JsonValue::Null;
        }
    }
    if let Some(one_of) = get_array_exec(resolved_schema, "oneOf") {
        proof {
            lemma_json_seq_view(one_of@);
        }
        if one_of.len() > 0 {
            if let Some(c) = one_of[0].get("const") {
                return c.deep_clone();
            }
        }
    }
    if let Some(enum_values) = get_array_exec(resolved_schema, "enum") {
        proof {
            lemma_json_seq_view(enum_values@);
        }
        if enum_values.len() > 0 {
            return enum_values[0].deep_clone();
        }
    }
    zero_value_exec(resolved_schema, defs, fuel)
}

/// The zero value of a resolved schema's type (see `zero_value`).
fn zero_value_exec(resolved_schema: &JsonValue, defs: &Vec<(String, JsonValue)>, fuel: usize) -> (v: JsonValue)
    ensures
        v@ == zero_value(resolved_schema@, ev(defs@), fuel as nat),
    decreases fuel, 1int, 0int,
{
    let t = schema_type_name(resolved_schema);
    if str_eq(t.as_str(), "string") {
        JsonValue::String(String::new())
    } else if str_eq(t.as_str(), "integer") {
        JsonValue::Number(string_of("0"))
    } else if str_eq(t.as_str(), "number") {
        JsonValue::Number(string_of("0.0"))
    } else if str_eq(t.as_str(), "boolean") {
        JsonValue::Bool(false)
    } else if str_eq(t.as_str(), "array") {
        proof {
            assert(json_seq_view(Seq::<JsonValue>::empty()) =~= Seq::<Json>::empty());
        }
        JsonValue::Array(Vec::new())
    } else if str_eq(t.as_str(), "object") {
        let no_props: Vec<(String, JsonValue)> = Vec::new();
        proof {
            assert(json_entries_view(no_props@) =~= Seq::<(Seq<char>, Json)>::empty());
        }
        let props = match get_object_exec(resolved_schema, "properties") {
            Some(p) => p,
            None => &no_props,
        };
        JsonValue::Object(default_fields_exec(props, defs, fuel))
    } else {
        JsonValue::Null
    }
}

fn default_fields_exec(props: &Vec<(String, JsonValue)>, defs: &Vec<(String, JsonValue)>, fuel: usize) -> (out: Vec<(String, JsonValue)>)
    ensures
        json_entries_view(out@) == default_fields(ev(props@), ev(defs@), fuel as nat),
    decreases fuel, 0int, 0int,
{
    let ghost pv = ev(props@);
    proof {
        lemma_json_entries_view(props@);
        assert(json_entries_view(Seq::<(String, JsonValue)>::empty()) =~= Seq::<(Seq<char>, Json)>::empty());
    }
    let mut out: Vec<(String, JsonValue)> = Vec::new();
    let mut i: usize = 0;
    while i < props.len()
        invariant
            i <= props@.len(),
            pv == ev(props@),
            pv.len() == props@.len(),
            forall|j: int| 0 <= j < props@.len() ==> #[trigger] pv[j] == (props@[j].0@, json_view(props@[j].1)),
            json_entries_view(out@) == default_fields(pv.take(i as int), ev(defs@), fuel as nat),
        decreases props@.len() - i,
    {
        proof {
            assert(pv.take(i + 1).drop_last() =~= pv.take(i as int));
            assert(pv.take(i + 1).last() == pv[i as int]);
        }
        let v = if fuel == 0 {
            JsonValue::Null
        } else {
            default_value_with_fuel(&props[i].1, defs, fuel - 1)
        };
        crate::json::entries_insert(&mut out, props[i].0.clone(), v);
        i = i + 1;
    }
    proof {
        assert(pv.take(props@.len() as int) =~= pv);
    }
    out
}

/// Creates the default value for a schema (see `default_value`).
pub fn default_value_for_schema(schema: &JsonValue, defs: &Vec<(String, JsonValue)>) -> (v: JsonValue)
    ensures
        v@ == default_value(schema@, ev(defs@)),
{
    default_value_with_fuel(schema, defs, usize::MAX)
}
} // verus!
