//! Laws of a freshly built tree: every node sits one level below its
//! parent, and for a schema and a value that fits it, the tree gives back
//! the value it was built from.
use vstd::prelude::*;
use crate::json::{Json, obj_get, obj_has, get_str, get_array, get_object, json_get, json_as_object, json_as_array, keys_ordered};
use crate::node::{
    NodeView, KindView, Entries, Infos, DEPTH_CAP, resolved, scalar_kind_of, type_name_of, variant_infos_of,
    enum_variants_of, strings_of, first_non_null, first_non_null_name, is_null_schema, built_node, built_children,
    built_fields, built_tree, field_value, ordered_keys, option_node, type_array_option_node, enum_node, checkbox_node,
    plain_node, inner_children, radio_items, radio_item, variant_fields, checkbox_items, checkbox_item, chosen_variant,
    current_variant, names_variant,
};
use crate::value::{node_json, leaf_json, entries_of, is_selected_item};
use crate::paths::checked_names;

verus! {

// ---------------------------------------------------------------------
// Which kind of node a schema builds
// ---------------------------------------------------------------------

/// The inner schema of an `"anyOf": [T, {"type": "null"}]` optional.
pub open spec fn anyof_inner(r: Json) -> Option<Json> {
    match get_array(r, "anyOf"@) {
        Some(a) => if (exists|i: int| 0 <= i < a.len() && is_null_schema(#[trigger] a[i])) && a.len() >= 2 {
            first_non_null(a)
        } else {
            None
        },
        None => None,
    }
}

/// Whether `r` is an optional given as `"type": [T, "null"]`.
pub open spec fn type_array_optional(r: Json) -> bool {
    match get_array(r, "type"@) {
        Some(ta) => {
            let types = strings_of(ta);
            types.contains("null"@) && types.len() >= 2 && first_non_null_name(types) is Some
        },
        None => false,
    }
}

/// The variants of a list of unit enum values (`"type": "array"` with
/// enum `"items"`).
pub open spec fn checkbox_variants(r: Json, defs: Entries) -> Option<Seq<Seq<char>>> {
    if get_str(r, "type"@) == Some("array"@) {
        match json_get(r, "items"@) {
            Some(items) => enum_variants_of(resolved(items, defs)),
            None => None,
        }
    } else {
        None
    }
}

/// The variants among `variants` that `current` holds, as JSON strings,
/// in schema order.
pub open spec fn picked(variants: Seq<Seq<char>>, current: Seq<Seq<char>>) -> Seq<Json>
    decreases variants.len(),
{
    if variants.len() == 0 {
        Seq::empty()
    } else {
        let p = picked(variants.drop_last(), current);
        if current.contains(variants.last()) {
            p.push(Json::Str(variants.last()))
        } else {
            p
        }
    }
}

/// Variant names are distinct.
pub open spec fn distinct_names(infos: Infos) -> bool {
    forall|i: int, j: int| 0 <= i < j < infos.len() ==> (#[trigger] infos[i]).0 != (#[trigger] infos[j]).0
}

// ---------------------------------------------------------------------
// Values that fit a schema
// ---------------------------------------------------------------------

/// `v` fits the field schema `schema`:
/// - an optional: null, or a value of a scalar inner type, or a value that
///   fits its inner type, but for a struct whose one field is named
///   `value` (such an optional reads back as that field's value);
/// - an enum with distinct variant names: the name of a unit variant, or
///   `{name: fields}` for a struct variant, the fields fitting its struct;
/// - a list of enum values: an array of variant names in schema order,
///   each once;
/// - a struct: an object fitting its properties (see `fits_struct`);
/// - a scalar: any value.
#[verifier::opaque]
pub open spec fn fits_node(schema: Json, v: Json, defs: Entries, depth: usize) -> bool
    decreases DEPTH_CAP - depth, 2int,
{
    let r = resolved(schema, defs);
    match anyof_inner(r) {
        Some(inner) => {
            let ri = resolved(inner, defs);
            ||| v == Json::Null
            ||| scalar_kind_of(ri) is Some
            ||| depth >= DEPTH_CAP
            ||| {
                let d = (depth + 1) as usize;
                if get_str(ri, "type"@) == Some("object"@) && get_object(ri, "properties"@) is Some {
                    &&& fits_struct(get_object(ri, "properties"@)->Some_0, v, defs, d)
                    &&& !(v matches Json::Object(ve) && ve.len() == 1 && ve[0].0 == "value"@)
                } else {
                    fits_node(ri, v, defs, d)
                }
            }
        },
        None => if type_array_optional(r) {
            true
        } else {
            match variant_infos_of(r, defs) {
                Some(infos) => distinct_names(infos) && match v {
                    Json::Str(name) => exists|i: int|
                        0 <= i < infos.len() && (#[trigger] infos[i]).0 == name && infos[i].1 is None,
                    Json::Object(o) => o.len() == 1 && exists|i: int|
                        0 <= i < infos.len() && (#[trigger] infos[i]).0 == o[0].0 && infos[i].1 is Some && {
                            let rs = resolved(infos[i].1->Some_0, defs);
                            if depth + 2 <= DEPTH_CAP {
                                match get_object(rs, "properties"@) {
                                    Some(p) => fits_struct(p, o[0].1, defs, (depth + 2) as usize),
                                    None => o[0].1 == Json::Object(Seq::empty()),
                                }
                            } else {
                                o[0].1 == Json::Object(Seq::empty())
                            }
                        },
                    _ => false,
                },
                None => match checkbox_variants(r, defs) {
                    Some(vars) => v matches Json::Array(a) && a == picked(vars, strings_of(a)),
                    None => if type_name_of(r) == "object"@ {
                        match get_object(r, "properties"@) {
                            Some(p) => if depth < DEPTH_CAP {
                                fits_struct(p, v, defs, (depth + 1) as usize)
                            } else {
                                v == Json::Object(Seq::empty())
                            },
                            None => v == Json::Object(Seq::empty()),
                        }
                    } else {
                        true
                    },
                },
            }
        },
    }
}

/// `v` fits a struct with properties `props`: an object in key order
/// with exactly those properties, each fitting its schema.
pub open spec fn fits_struct(props: Entries, v: Json, defs: Entries, depth: usize) -> bool
    decreases DEPTH_CAP - depth, 4int,
{
    &&& v matches Json::Object(ve)
    &&& keys_ordered(json_as_object(v)->Some_0)
    &&& forall|k: Seq<char>| #[trigger] obj_has(props, k) == obj_has(json_as_object(v)->Some_0, k)
    &&& forall|i: int|
        0 <= i < json_as_object(v)->Some_0.len() ==> fits_node(
            obj_get(props, (#[trigger] json_as_object(v)->Some_0[i]).0)->Some_0,
            json_as_object(v)->Some_0[i].1,
            defs,
            depth,
        )
}

// ---------------------------------------------------------------------
// Facts about the builder
// ---------------------------------------------------------------------

/// A built node has the key it was built for.
pub proof fn lemma_built_node_key(key: Seq<char>, schema: Json, v: Json, defs: Entries, depth: usize)
    ensures
        built_node(key, schema, v, defs, depth).key == key,
{
    reveal(type_array_option_node);
    reveal(checkbox_node);
}

/// The checked names of the checkbox items of `variants` are the
/// variants that `current` holds.
pub proof fn lemma_checkbox_names(variants: Seq<Seq<char>>, current: Seq<Seq<char>>, depth: usize)
    ensures
        checked_names(checkbox_items(variants, current, depth)) == picked(variants, current),
    decreases variants.len(),
{
    if variants.len() > 0 {
        let items = checkbox_items(variants, current, depth);
        assert(items.drop_last() =~= checkbox_items(variants.drop_last(), current, depth));
        assert(items.last() == checkbox_item(variants.last(), current, depth));
        lemma_checkbox_names(variants.drop_last(), current, depth);
    }
}

// ---------------------------------------------------------------------
// The round trip
// ---------------------------------------------------------------------

/// Each node built for `keys` has a key of `keys` that is a property, and
/// each such key has a node.
#[verifier::rlimit(40)]
pub proof fn lemma_fields_keys(keys: Seq<Seq<char>>, props: Entries, defs: Entries, vo: Option<Entries>, depth: usize)
    ensures
        forall|j: int|
            0 <= j < built_fields(keys, props, defs, vo, depth).len() ==> obj_has(
                props,
                (#[trigger] built_fields(keys, props, defs, vo, depth)[j]).key,
            ),
        forall|k: Seq<char>|
            #![trigger keys.contains(k), obj_has(props, k)]
            keys.contains(k) && obj_has(props, k) ==> exists|j: int|
                0 <= j < built_fields(keys, props, defs, vo, depth).len() && (#[trigger] built_fields(
                    keys,
                    props,
                    defs,
                    vo,
                    depth,
                )[j]).key == k,
    decreases keys.len(),
{
    if keys.len() > 0 {
        let p = built_fields(keys.drop_last(), props, defs, vo, depth);
        let kl = keys.last();
        lemma_fields_keys(keys.drop_last(), props, defs, vo, depth);
        let b = built_fields(keys, props, defs, vo, depth);
        crate::laws::lemma_first_index_spec(props, kl);
        match obj_get(props, kl) {
            Some(fs) => {
                let i = first_index_of(props, kl);
                lemma_built_node_key(kl, fs, field_value(vo, kl), defs, depth);
                assert(b == p.push(built_node(kl, fs, field_value(vo, kl), defs, depth)));
                assert forall|j: int| 0 <= j < b.len() implies obj_has(props, (#[trigger] b[j]).key) by {
                    if j < p.len() {
                        assert(b[j] == p[j]);
                    } else {
                        assert(props[i].0 == kl);
                    }
                }
                assert forall|k: Seq<char>| keys.contains(k) && obj_has(props, k) implies exists|j: int|
                    0 <= j < b.len() && (#[trigger] b[j]).key == k by {
                    if k == kl {
                        assert(b[p.len() as int].key == k);
                    } else {
                        let w = choose|w: int| 0 <= w < keys.len() && keys[w] == k;
                        assert(keys.drop_last()[w] == k);
                        assert(keys.drop_last().contains(k));
                        let j = choose|j: int| 0 <= j < p.len() && (#[trigger] p[j]).key == k;
                        assert(b[j] == p[j]);
                    }
                }
            },
            None => {
                assert(b == p);
                assert forall|k: Seq<char>| keys.contains(k) && obj_has(props, k) implies exists|j: int|
                    0 <= j < b.len() && (#[trigger] b[j]).key == k by {
                    if k == kl {
                        let w = choose|w: int| 0 <= w < props.len() && (#[trigger] props[w]).0 == k;
                        assert(false);
                    } else {
                        let w = choose|w: int| 0 <= w < keys.len() && keys[w] == k;
                        assert(keys.drop_last()[w] == k);
                        assert(keys.drop_last().contains(k));
                    }
                }
            },
        }
    }
}

/// The index of the first entry with key `k` (see `first_index`).
pub open spec fn first_index_of(e: Entries, k: Seq<char>) -> int {
    crate::json::first_index(e, k)->Some_0
}

/// Each node built for `keys` of a struct whose value is `ve` gives the
/// value of its key in `ve`.
#[verifier::spinoff_prover]
#[verifier::rlimit(80)]
pub proof fn lemma_fits_fields(keys: Seq<Seq<char>>, props: Entries, ve: Entries, defs: Entries, depth: usize)
    requires
        depth <= DEPTH_CAP,
        fits_struct(props, Json::Object(ve), defs, depth),
    ensures
        forall|j: int|
            0 <= j < built_fields(keys, props, defs, Some(ve), depth).len() ==> obj_get(
                ve,
                (#[trigger] built_fields(keys, props, defs, Some(ve), depth)[j]).key,
            ) == Some(node_json(built_fields(keys, props, defs, Some(ve), depth)[j])),
    decreases DEPTH_CAP - depth, 3int, keys.len(),
{
    if keys.len() > 0 {
        let p = built_fields(keys.drop_last(), props, defs, Some(ve), depth);
        let kl = keys.last();
        lemma_fits_fields(keys.drop_last(), props, ve, defs, depth);
        let b = built_fields(keys, props, defs, Some(ve), depth);
        match obj_get(props, kl) {
            Some(fs) => {
                crate::laws::lemma_first_index_spec(props, kl);
                crate::laws::lemma_ordered_get(ve, kl);
                assert(obj_has(props, kl));
                assert(obj_has(ve, kl));
                let i = choose|i: int| 0 <= i < ve.len() && (#[trigger] ve[i]).0 == kl;
                assert(fits_node(obj_get(props, ve[i].0)->Some_0, ve[i].1, defs, depth));
                assert(field_value(Some(ve), kl) == ve[i].1);
                lemma_fits_node(kl, fs, ve[i].1, defs, depth);
                lemma_built_node_key(kl, fs, ve[i].1, defs, depth);
                let nb = built_node(kl, fs, ve[i].1, defs, depth);
                assert(b == p.push(nb));
                assert forall|j: int| 0 <= j < b.len() implies obj_get(ve, (#[trigger] b[j]).key) == Some(
                    node_json(b[j]),
                ) by {
                    if j < p.len() {
                        assert(b[j] == p[j]);
                    }
                }
            },
            None => {
                assert(b == p);
            },
        }
    }
}

/// The nodes built for the properties of a struct whose value fits it
/// give back that value; each has a key of the value, and each key of
/// the value has a node.
pub proof fn lemma_fits_struct(props: Entries, parent: Json, v: Json, defs: Entries, depth: usize)
    requires
        depth <= DEPTH_CAP,
        fits_struct(props, v, defs, depth),
    ensures
        ({
            let c = built_children(props, parent, defs, json_as_object(v), depth);
            let ve = json_as_object(v)->Some_0;
            &&& Json::Object(entries_of(c)) == v
            &&& forall|j: int| 0 <= j < c.len() ==> obj_has(ve, (#[trigger] c[j]).key)
            &&& forall|k: Seq<char>| obj_has(ve, k) ==> exists|j: int| 0 <= j < c.len() && (#[trigger] c[j]).key == k
        }),
    decreases DEPTH_CAP - depth, 4int,
{
    let ve = json_as_object(v)->Some_0;
    reveal(ordered_keys);
    let keys = ordered_keys(props, parent);
    let c = built_children(props, parent, defs, json_as_object(v), depth);
    assert(c == built_fields(keys, props, defs, Some(ve), depth));
    lemma_fits_fields(keys, props, ve, defs, depth);
    lemma_fields_keys(keys, props, defs, Some(ve), depth);
    let e = entries_of(c);
    assert forall|k: Seq<char>| obj_has(ve, k) implies exists|j: int| 0 <= j < c.len() && (#[trigger] c[j]).key == k by {
        assert(obj_has(props, k));
        let i = choose|i: int| 0 <= i < props.len() && (#[trigger] props[i]).0 == k;
        assert(crate::node::entry_keys(props)[i] == k);
        crate::laws::lemma_add_missing_contains(
            match get_array(parent, "required"@) {
                Some(a) => crate::node::present_only(strings_of(a), props),
                None => Seq::empty(),
            },
            crate::node::entry_keys(props),
            k,
        );
        assert(keys.contains(k));
    }
    assert forall|k: Seq<char>| #[trigger] obj_get(e, k) == obj_get(ve, k) by {
        if obj_has(ve, k) {
            crate::laws::lemma_ordered_get(ve, k);
            let i = choose|i: int| 0 <= i < ve.len() && (#[trigger] ve[i]).0 == k;
            assert forall|j: int| 0 <= j < c.len() && (#[trigger] c[j]).key == k implies node_json(c[j]) == ve[i].1 by {
                assert(obj_get(ve, c[j].key) == Some(node_json(c[j])));
            }
            crate::laws::lemma_entries_of_get(c, k, ve[i].1);
        } else {
            assert forall|j: int| 0 <= j < c.len() implies (#[trigger] c[j]).key != k by {
                assert(obj_has(props, c[j].key));
            }
            crate::laws::lemma_entries_of_keys(c, k);
        }
    }
    crate::laws::law_object_keys_in_order(c);
    crate::laws::lemma_ordered_equal(e, ve);
}

/// A field whose value fits its schema gives that value back, as a field
/// and as a single value.
#[verifier::spinoff_prover]
#[verifier::rlimit(100)]
pub proof fn lemma_fits_node(key: Seq<char>, schema: Json, v: Json, defs: Entries, depth: usize)
    requires
        depth <= DEPTH_CAP,
        fits_node(schema, v, defs, depth),
    ensures
        node_json(built_node(key, schema, v, defs, depth)) == v,
        leaf_json(built_node(key, schema, v, defs, depth)) == v,
    decreases DEPTH_CAP - depth, 2int,
{
    reveal(fits_node);
    let r = resolved(schema, defs);
    let descr = get_str(r, "description"@);
    let n = built_node(key, schema, v, defs, depth);
    match anyof_inner(r) {
        Some(inner) => {
            let a = get_array(r, "anyOf"@)->Some_0;
            lemma_fits_option(key, a, inner, v, defs, depth, descr);
            assert(n == option_node(key, a, v, defs, depth, descr)->Some_0);
        },
        None => {
            if let Some(a) = get_array(r, "anyOf"@) {
                assert(option_node(key, a, v, defs, depth, descr) is None);
            }
            if type_array_optional(r) {
                reveal(type_array_option_node);
                let ta = get_array(r, "type"@)->Some_0;
                assert(type_array_option_node(key, ta, v, depth, descr) is Some);
            } else {
                assert(get_array(r, "type"@) matches Some(ta) ==> type_array_option_node(key, ta, v, depth, descr) is None)
                    by {
                    reveal(type_array_option_node);
                }
                match variant_infos_of(r, defs) {
                    Some(infos) => {
                        assert(n == enum_node(key, r, v, defs, depth, descr)->Some_0);
                        lemma_fits_enum(key, r, infos, v, defs, depth, descr);
                    },
                    None => {
                        reveal(checkbox_node);
                        match checkbox_variants(r, defs) {
                            Some(vars) => {
                                let arr = json_as_array(v)->Some_0;
                                lemma_checkbox_names(vars, strings_of(arr), depth);
                            },
                            None => {
                                assert(n == plain_node(key, r, v, defs, depth, descr));
                                lemma_fits_plain(key, r, v, defs, depth, descr);
                            },
                        }
                    },
                }
            }
        },
    }
}

/// An optional given as `anyOf` gives back a value that fits it.
#[verifier::rlimit(40)]
proof fn lemma_fits_option(
    key: Seq<char>,
    a: Seq<Json>,
    inner: Json,
    v: Json,
    defs: Entries,
    depth: usize,
    descr: Option<Seq<char>>,
)
    requires
        depth <= DEPTH_CAP,
        (exists|i: int| 0 <= i < a.len() && is_null_schema(#[trigger] a[i])) && a.len() >= 2,
        first_non_null(a) == Some(inner),
        ({
            let ri = resolved(inner, defs);
            ||| v == Json::Null
            ||| scalar_kind_of(ri) is Some
            ||| depth >= DEPTH_CAP
            ||| {
                let d = (depth + 1) as usize;
                if get_str(ri, "type"@) == Some("object"@) && get_object(ri, "properties"@) is Some {
                    &&& fits_struct(get_object(ri, "properties"@)->Some_0, v, defs, d)
                    &&& !(v matches Json::Object(ve) && ve.len() == 1 && ve[0].0 == "value"@)
                } else {
                    fits_node(ri, v, defs, d)
                }
            }
        }),
    ensures
        option_node(key, a, v, defs, depth, descr) is Some,
        node_json(option_node(key, a, v, defs, depth, descr)->Some_0) == v,
        leaf_json(option_node(key, a, v, defs, depth, descr)->Some_0) == v,
    decreases DEPTH_CAP - depth, 1int,
{
    let ri = resolved(inner, defs);
    let n = option_node(key, a, v, defs, depth, descr)->Some_0;
    assert(n.value == v);
    assert(n.kind == KindView::Option { is_some: v != Json::Null, inner_kind: crate::node::boxed(scalar_kind_of(ri)) });
    if v != Json::Null && scalar_kind_of(ri) is None && depth < DEPTH_CAP {
        let d = (depth + 1) as usize;
        let c = n.children;
        assert(c == inner_children(ri, v, defs, d));
        if get_str(ri, "type"@) == Some("object"@) && get_object(ri, "properties"@) is Some {
            let p = get_object(ri, "properties"@)->Some_0;
            assert(c == built_children(p, ri, defs, json_as_object(v), d));
            lemma_fits_struct(p, ri, v, defs, d);
            let ve = json_as_object(v)->Some_0;
            if c.len() == 1 && c[0].key == "value"@ {
                assert(obj_has(ve, "value"@));
                if ve.len() >= 2 {
                    assert(crate::json::key_less(ve[0].0, ve[1].0));
                    crate::json::lemma_key_less_irreflexive(ve[0].0);
                    assert(obj_has(ve, ve[0].0));
                    assert(obj_has(ve, ve[1].0));
                    let j0 = choose|j: int| 0 <= j < c.len() && (#[trigger] c[j]).key == ve[0].0;
                    let j1 = choose|j: int| 0 <= j < c.len() && (#[trigger] c[j]).key == ve[1].0;
                    assert(false);
                }
                let w = choose|w: int| 0 <= w < ve.len() && (#[trigger] ve[w]).0 == "value"@;
                assert(ve.len() == 1 && ve[0].0 == "value"@);
                assert(false);
            }
            assert(node_json(n) == Json::Object(entries_of(c)) || c.len() == 0);
        } else {
            lemma_fits_node("value"@, ri, v, defs, d);
            lemma_built_node_key("value"@, ri, v, defs, d);
            reveal_strlit("object");
            assert("object"@.len() == 6);
            assert(inner_children(ri, v, defs, d) == seq![built_node("value"@, ri, v, defs, d)]);
            assert(c[0] == built_node("value"@, ri, v, defs, d));
        }
    } else {
        assert(n.children.len() == 0 || v == Json::Null);
    }
}

/// A struct or scalar gives back a value that fits it.
#[verifier::rlimit(40)]
proof fn lemma_fits_plain(key: Seq<char>, r: Json, v: Json, defs: Entries, depth: usize, descr: Option<Seq<char>>)
    requires
        depth <= DEPTH_CAP,
        type_name_of(r) == "object"@ ==> match get_object(r, "properties"@) {
            Some(p) => if depth < DEPTH_CAP {
                fits_struct(p, v, defs, (depth + 1) as usize)
            } else {
                v == Json::Object(Seq::empty())
            },
            None => v == Json::Object(Seq::empty()),
        },
    ensures
        node_json(plain_node(key, r, v, defs, depth, descr)) == v,
        leaf_json(plain_node(key, r, v, defs, depth, descr)) == v,
    decreases DEPTH_CAP - depth, 1int,
{
    let n = plain_node(key, r, v, defs, depth, descr);
    reveal_strlit("object");
    reveal_strlit("string");
    reveal_strlit("integer");
    reveal_strlit("number");
    reveal_strlit("boolean");
    assert("object"@ != "string"@ && "object"@ != "integer"@ && "object"@ != "number"@ && "object"@ != "boolean"@) by {
        assert("object"@[0] == 'o' && "string"@[0] == 's' && "integer"@[0] == 'i' && "number"@[0] == 'n'
            && "boolean"@[0] == 'b');
    }
    if type_name_of(r) == "object"@ {
        if let Some(p) = get_object(r, "properties"@) {
            if depth < DEPTH_CAP {
                lemma_fits_struct(p, r, v, defs, (depth + 1) as usize);
            }
        }
        assert(n.kind is Struct);
        assert(entries_of(Seq::<NodeView>::empty()) == Seq::<(Seq<char>, Json)>::empty());
    } else {
        let t = type_name_of(r);
        if t == "string"@ {
        } else if t == "integer"@ {
        } else if t == "number"@ {
        } else if t == "boolean"@ {
        } else {
            assert(n == crate::node::leaf(key, KindView::String, v, depth, descr));
        }
    }
}

/// An enum gives back a value that fits it.
proof fn lemma_fits_enum(
    key: Seq<char>,
    r: Json,
    infos: Infos,
    v: Json,
    defs: Entries,
    depth: usize,
    descr: Option<Seq<char>>,
)
    requires
        depth <= DEPTH_CAP,
        variant_infos_of(r, defs) == Some(infos),
        distinct_names(infos),
        match v {
            Json::Str(name) => exists|i: int| 0 <= i < infos.len() && (#[trigger] infos[i]).0 == name && infos[i].1 is None,
            Json::Object(o) => o.len() == 1 && exists|i: int|
                0 <= i < infos.len() && (#[trigger] infos[i]).0 == o[0].0 && infos[i].1 is Some && {
                    let rs = resolved(infos[i].1->Some_0, defs);
                    if depth + 2 <= DEPTH_CAP {
                        match get_object(rs, "properties"@) {
                            Some(p) => fits_struct(p, o[0].1, defs, (depth + 2) as usize),
                            None => o[0].1 == Json::Object(Seq::empty()),
                        }
                    } else {
                        o[0].1 == Json::Object(Seq::empty())
                    }
                },
            _ => false,
        },
    ensures
        node_json(enum_node(key, r, v, defs, depth, descr)->Some_0) == v,
        leaf_json(enum_node(key, r, v, defs, depth, descr)->Some_0) == v,
    decreases DEPTH_CAP - depth, 1int,
{
    reveal(current_variant);
    let n = enum_node(key, r, v, defs, depth, descr)->Some_0;
    let cv = chosen_variant(infos, v);
    crate::laws::lemma_radio_items(infos, cv.0, cv.1, defs, depth);
    let c = n.children;
    assert(c == radio_items(infos, cv.0, cv.1, defs, depth));
    let i = match v {
        Json::Str(name) => choose|i: int| 0 <= i < infos.len() && (#[trigger] infos[i]).0 == name && infos[i].1 is None,
        Json::Object(o) => choose|i: int|
            0 <= i < infos.len() && (#[trigger] infos[i]).0 == o[0].0 && infos[i].1 is Some && {
                let rs = resolved(infos[i].1->Some_0, defs);
                if depth + 2 <= DEPTH_CAP {
                    match get_object(rs, "properties"@) {
                        Some(p) => fits_struct(p, o[0].1, defs, (depth + 2) as usize),
                        None => o[0].1 == Json::Object(Seq::empty()),
                    }
                } else {
                    o[0].1 == Json::Object(Seq::empty())
                }
            },
        _ => 0,
    };
    assert(names_variant(infos, current_variant(v).0));
    assert(cv == current_variant(v));
    assert(infos[i].0 == cv.0);
    assert(c[i] == radio_item(infos[i], cv.0, cv.1, defs, depth));
    assert(is_selected_item(c[i]));
    assert forall|j: int| 0 <= j < i implies !is_selected_item(#[trigger] c[j]) by {
        assert(c[j] == radio_item(infos[j], cv.0, cv.1, defs, depth));
        assert(infos[j].0 != infos[i].0);
    }
    crate::value::lemma_first_selected(c, i);
    if let Json::Object(o) = v {
        let rs = resolved(infos[i].1->Some_0, defs);
        if depth + 2 <= DEPTH_CAP {
            if let Some(p) = get_object(rs, "properties"@) {
                lemma_fits_struct(p, rs, o[0].1, defs, (depth + 2) as usize);
            }
        }
        assert(o =~= seq![(o[0].0, o[0].1)]);
    }
}

/// The tree built for a root schema and a config value that fits it
/// reads back as that value: structs, optionals, enums and lists of enum
/// values give back what they were built from. (See `fits_node` for the
/// one shape left out: an optional struct whose only field is named
/// `value`.)
pub proof fn law_round_trip(root: Json, v: Json)
    requires
        get_object(root, "properties"@) matches Some(props) && fits_struct(
            props,
            v,
            match get_object(root, "$defs"@) {
                Some(d) => d,
                None => Seq::empty(),
            },
            0,
        ),
    ensures
        crate::value::nodes_json(built_tree(root, v)) == v,
{
    let props = get_object(root, "properties"@)->Some_0;
    let defs = match get_object(root, "$defs"@) {
        Some(d) => d,
        None => Seq::empty(),
    };
    lemma_fits_struct(props, root, v, defs, 0);
}

// ---------------------------------------------------------------------
// Depths
// ---------------------------------------------------------------------

/// Every child in the tree below `n` sits one level below its parent.
pub open spec fn depths_ok(n: NodeView) -> bool
    decreases n,
{
    forall|i: int|
        0 <= i < n.children.len() ==> (#[trigger] n.children[i]).depth == n.depth + 1 && depths_ok(n.children[i])
}

/// Nodes that sit at `depth` with every child one level below its parent.
pub open spec fn all_at(t: Seq<NodeView>, depth: int) -> bool {
    forall|i: int| 0 <= i < t.len() ==> (#[trigger] t[i]).depth == depth && depths_ok(t[i])
}

/// The nodes built for `keys` sit at `depth`.
pub proof fn lemma_depth_fields(keys: Seq<Seq<char>>, props: Entries, defs: Entries, vo: Option<Entries>, depth: usize)
    requires
        depth <= DEPTH_CAP,
    ensures
        all_at(built_fields(keys, props, defs, vo, depth), depth as int),
    decreases DEPTH_CAP - depth, 3int, keys.len(),
{
    if keys.len() > 0 {
        let p = built_fields(keys.drop_last(), props, defs, vo, depth);
        let kl = keys.last();
        lemma_depth_fields(keys.drop_last(), props, defs, vo, depth);
        let b = built_fields(keys, props, defs, vo, depth);
        match obj_get(props, kl) {
            Some(fs) => {
                lemma_depth_node(kl, fs, field_value(vo, kl), defs, depth);
                assert(b == p.push(built_node(kl, fs, field_value(vo, kl), defs, depth)));
                assert forall|i: int| 0 <= i < b.len() implies (#[trigger] b[i]).depth == depth && depths_ok(b[i]) by {
                    if i < p.len() {
                        assert(b[i] == p[i]);
                    }
                }
            },
            None => {},
        }
    }
}

/// The nodes built for the properties of a struct sit at `depth`.
pub proof fn lemma_depth_children(props: Entries, parent: Json, defs: Entries, vo: Option<Entries>, depth: usize)
    requires
        depth <= DEPTH_CAP,
    ensures
        all_at(built_children(props, parent, defs, vo, depth), depth as int),
    decreases DEPTH_CAP - depth, 4int,
{
    lemma_depth_fields(ordered_keys(props, parent), props, defs, vo, depth);
}

/// A node whose children all sit one level below it keeps depths.
proof fn lemma_depths_ok_from(n: NodeView)
    requires
        all_at(n.children, n.depth + 1),
    ensures
        depths_ok(n),
{
}

/// A built node has its key, value and depth, and every node below it
/// sits one level below its parent (the fields of a selected struct
/// variant one level below their radio item, two below the group).
#[verifier::spinoff_prover]
#[verifier::rlimit(100)]
pub proof fn lemma_depth_node(key: Seq<char>, schema: Json, v: Json, defs: Entries, depth: usize)
    requires
        depth <= DEPTH_CAP,
    ensures
        built_node(key, schema, v, defs, depth).key == key,
        built_node(key, schema, v, defs, depth).value == v,
        built_node(key, schema, v, defs, depth).depth == depth,
        depths_ok(built_node(key, schema, v, defs, depth)),
    decreases DEPTH_CAP - depth, 2int,
{
    lemma_built_node_key(key, schema, v, defs, depth);
    let r = resolved(schema, defs);
    let descr = get_str(r, "description"@);
    let n = built_node(key, schema, v, defs, depth);
    let opt1 = match get_array(r, "anyOf"@) {
        Some(any_of) => option_node(key, any_of, v, defs, depth, descr),
        None => None,
    };
    let opt2 = match get_array(r, "type"@) {
        Some(ta) => type_array_option_node(key, ta, v, depth, descr),
        None => None,
    };
    let en = enum_node(key, r, v, defs, depth, descr);
    let cb = checkbox_node(key, r, v, defs, depth, descr);
    if opt1 is Some {
        let a = get_array(r, "anyOf"@)->Some_0;
        lemma_depth_option(key, a, v, defs, depth, descr);
        assert(n == opt1->Some_0);
    } else if opt2 is Some {
        reveal(type_array_option_node);
        assert(n == opt2->Some_0);
        lemma_depths_ok_from(n);
    } else if en is Some {
        lemma_depth_enum(key, r, v, defs, depth, descr);
        assert(n == en->Some_0);
    } else if cb is Some {
        reveal(checkbox_node);
        assert(n == cb->Some_0);
        lemma_depths_ok_from(n);
    } else {
        assert(n == plain_node(key, r, v, defs, depth, descr));
        lemma_depth_plain(key, r, v, defs, depth, descr);
    }
}

/// A struct or scalar node sits at `depth` and its fields one level
/// below.
#[verifier::rlimit(40)]
proof fn lemma_depth_plain(key: Seq<char>, r: Json, v: Json, defs: Entries, depth: usize, descr: Option<Seq<char>>)
    requires
        depth <= DEPTH_CAP,
    ensures
        plain_node(key, r, v, defs, depth, descr).value == v,
        plain_node(key, r, v, defs, depth, descr).depth == depth,
        depths_ok(plain_node(key, r, v, defs, depth, descr)),
    decreases DEPTH_CAP - depth, 1int,
{
    let pn = plain_node(key, r, v, defs, depth, descr);
    reveal_strlit("object");
    reveal_strlit("string");
    reveal_strlit("integer");
    reveal_strlit("number");
    reveal_strlit("boolean");
    assert("object"@ != "string"@ && "object"@ != "integer"@ && "object"@ != "number"@ && "object"@ != "boolean"@) by {
        assert("object"@[0] == 'o' && "string"@[0] == 's' && "integer"@[0] == 'i' && "number"@[0] == 'n'
            && "boolean"@[0] == 'b');
    }
    if type_name_of(r) == "object"@ && get_object(r, "properties"@) is Some && depth < DEPTH_CAP {
        lemma_depth_children(get_object(r, "properties"@)->Some_0, r, defs, json_as_object(v), (depth + 1) as usize);
    }
    lemma_depths_ok_from(pn);
}

/// An optional's node sits at `depth` and its children one level below.
proof fn lemma_depth_option(
    key: Seq<char>,
    a: Seq<Json>,
    v: Json,
    defs: Entries,
    depth: usize,
    descr: Option<Seq<char>>,
)
    requires
        depth <= DEPTH_CAP,
        option_node(key, a, v, defs, depth, descr) is Some,
    ensures
        option_node(key, a, v, defs, depth, descr)->Some_0.value == v,
        option_node(key, a, v, defs, depth, descr)->Some_0.depth == depth,
        depths_ok(option_node(key, a, v, defs, depth, descr)->Some_0),
    decreases DEPTH_CAP - depth, 1int,
{
    let n = option_node(key, a, v, defs, depth, descr)->Some_0;
    let inner = first_non_null(a)->Some_0;
    let ri = resolved(inner, defs);
    if n.children.len() > 0 {
        let d = (depth + 1) as usize;
        assert(n.children == inner_children(ri, v, defs, d));
        reveal_strlit("object");
        assert("object"@.len() == 6);
        if get_str(ri, "type"@) == Some("object"@) && get_object(ri, "properties"@) is Some {
            lemma_depth_children(get_object(ri, "properties"@)->Some_0, ri, defs, json_as_object(v), d);
        } else {
            assert(inner_children(ri, v, defs, d) == seq![built_node("value"@, ri, v, defs, d)]);
            lemma_depth_node("value"@, ri, v, defs, d);
        }
    }
    lemma_depths_ok_from(n);
}

/// A radio group's node sits at `depth`, its items one level below, and
/// the fields of a selected struct variant one level below their item.
proof fn lemma_depth_enum(key: Seq<char>, r: Json, v: Json, defs: Entries, depth: usize, descr: Option<Seq<char>>)
    requires
        depth <= DEPTH_CAP,
        enum_node(key, r, v, defs, depth, descr) is Some,
    ensures
        enum_node(key, r, v, defs, depth, descr)->Some_0.value == v,
        enum_node(key, r, v, defs, depth, descr)->Some_0.depth == depth,
        depths_ok(enum_node(key, r, v, defs, depth, descr)->Some_0),
    decreases DEPTH_CAP - depth, 1int,
{
    let n = enum_node(key, r, v, defs, depth, descr)->Some_0;
    let infos = variant_infos_of(r, defs)->Some_0;
    let cv = chosen_variant(infos, v);
    crate::laws::lemma_radio_items(infos, cv.0, cv.1, defs, depth);
    assert forall|i: int| 0 <= i < n.children.len() implies (#[trigger] n.children[i]).depth == depth + 1 && depths_ok(
        n.children[i],
    ) by {
        let it = n.children[i];
        assert(it == radio_item(infos[i], cv.0, cv.1, defs, depth));
        if it.children.len() > 0 {
            let rs = resolved(infos[i].1->Some_0, defs);
            let iv = match cv.1 {
                Some(x) => x,
                None => Json::Null,
            };
            let d2 = (depth + 2) as usize;
            assert(it.children == variant_fields(rs, iv, defs, d2));
            if let Some(p) = get_object(rs, "properties"@) {
                lemma_depth_children(p, rs, defs, json_as_object(iv), d2);
            }
        }
        lemma_depths_ok_from(it);
    }
    lemma_depths_ok_from(n);
}

/// Every node of a freshly built tree sits one level below its parent,
/// the top-level nodes at depth 0.
pub proof fn law_built_tree_depths(root: Json, v: Json)
    ensures
        all_at(built_tree(root, v), 0),
{
    let defs = match get_object(root, "$defs"@) {
        Some(d) => d,
        None => Seq::empty(),
    };
    if let Some(props) = get_object(root, "properties"@) {
        lemma_depth_children(props, root, defs, json_as_object(v), 0);
    }
}

} // verus!
