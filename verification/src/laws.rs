//! Properties of the editor that span several operations or hold of
//! every state.
use vstd::prelude::*;
use crate::json::Json;
use crate::node::{KindView, NodeView};
use crate::paths::{
    update_at, node_at, key_index, with_radio_selected, radio_children, radio_child, lemma_key_index_spec, with_value,
    with_option_state, with_checked, with_checked_list, checked_names,
};
use crate::node::Entries;
use crate::state::{
    TreeState, edit_view, vis, vis_one, confirmed_value, changed_at, bool_or_false, effective_kind, expandable,
};
use crate::event::{KeyPress, EventResult};
use crate::value::{nodes_json, entries_of, node_json, leaf_json};
use crate::json::{obj_get, obj_insert, obj_has, first_index, get_str, get_array, get_object, json_get, json_as_object};
use crate::node::{built_node, built_fields, built_tree, field_value, add_missing};
use crate::layout::{scrolled, format_text, row_render, row_lead, text_cells, text_end, indent_of, indicator, Cell, value_paint};
use crate::text::{
    split_dots, last_dot,
    decimal, digits_value, digit_char, digit_value, is_digit, all_digits, parse_i64, i64_text, };

verus! {

// ---------------------------------------------------------------------
// Navigation
// ---------------------------------------------------------------------

/// Moving up and then down returns to the row where the selection was,
/// when it was not the first row and lay among the visible rows.
pub proof fn law_up_then_down(s: TreeState, m: TreeState, n: TreeState)
    requires
        s.wf(),
        0 < s.selected < s.visible_list().len(),
        s.selects_prev(m),
        m.selects_next(n),
    ensures
        n.selected == s.selected,
{
    assert(m.visible_list() == s.visible_list());
}

/// Moving down and then up returns to the row where the selection was,
/// when it was not the last visible row.
pub proof fn law_down_then_up(s: TreeState, m: TreeState, n: TreeState)
    requires
        s.wf(),
        s.visible_list().len() <= usize::MAX,
        s.selected + 1 < s.visible_list().len(),
        s.selects_next(m),
        m.selects_prev(n),
    ensures
        n.selected == s.selected,
{
    assert(m.visible_list() == s.visible_list());
}

/// Moving up or down keeps a selection that lies among the visible rows
/// among them.
pub proof fn law_selection_stays_visible(s: TreeState, m: TreeState)
    requires
        s.selected < s.visible_list().len(),
        s.selects_prev(m) || s.selects_next(m),
    ensures
        m.selected < m.visible_list().len(),
{
    assert(m.visible_list() == s.visible_list());
}

// ---------------------------------------------------------------------
// Filtering
// ---------------------------------------------------------------------

/// The rows of a visible list are shown by the filter.
pub proof fn lemma_vis_shown(
    nodes: Seq<NodeView>,
    prefix: Seq<char>,
    expanded: Set<Seq<char>>,
    shows: spec_fn(Seq<char>) -> bool,
)
    ensures
        forall|k: int| 0 <= k < vis(nodes, prefix, expanded, shows).len() ==> shows(
            #[trigger] vis(nodes, prefix, expanded, shows)[k].1,
        ),
    decreases nodes, 0int,
{
    if nodes.len() > 0 {
        lemma_vis_shown(nodes.drop_last(), prefix, expanded, shows);
        lemma_vis_one_shown(nodes.last(), prefix, expanded, shows);
        let a = vis(nodes.drop_last(), prefix, expanded, shows);
        let b = vis_one(nodes.last(), prefix, expanded, shows);
        assert forall|k: int| 0 <= k < (a + b).len() implies shows(#[trigger] (a + b)[k].1) by {
            if k >= a.len() {
                assert((a + b)[k] == b[k - a.len()]);
            }
        }
    }
}

pub proof fn lemma_vis_one_shown(
    n: NodeView,
    prefix: Seq<char>,
    expanded: Set<Seq<char>>,
    shows: spec_fn(Seq<char>) -> bool,
)
    ensures
        forall|k: int| 0 <= k < vis_one(n, prefix, expanded, shows).len() ==> shows(
            #[trigger] vis_one(n, prefix, expanded, shows)[k].1,
        ),
    decreases n, 1int,
{
    let path = crate::text::join_path(prefix, n.key);
    if shows(path) && expanded.contains(path) && n.children.len() > 0 {
        lemma_vis_shown(n.children, path, expanded, shows);
        let c = vis(n.children, path, expanded, shows);
        assert forall|k: int| 0 <= k < (seq![(n, path)] + c).len() implies shows(
            #[trigger] (seq![(n, path)] + c)[k].1,
        ) by {
            if k > 0 {
                assert((seq![(n, path)] + c)[k] == c[k - 1]);
            }
        }
    }
}

/// Every row on screen is one the filter shows.
pub proof fn law_rows_are_shown(s: TreeState, k: int)
    requires
        0 <= k < s.visible_list().len(),
    ensures
        (s.shows())(s.visible_list()[k].1),
{
    lemma_vis_shown(s.tree(), Seq::empty(), s.expanded_set(), s.shows());
}

/// Outside edit mode, no key changes the tree while the selected node is
/// one the filter does not let change, and none reports a changed value.
pub proof fn law_disabled_node_keeps_values(s: TreeState, n: TreeState, key: KeyPress, r: EventResult)
    requires
        s.selected_entry() matches Some(e) && !s.allows(e.1),
        s.handles_normal_key(n, key, r),
    ensures
        n.tree() == s.tree(),
        r != (EventResult::Consumed { value_changed: true }),
{
}

// ---------------------------------------------------------------------
// Edit mode
// ---------------------------------------------------------------------

/// Cancelling an edit leaves the tree as it was.
pub proof fn law_cancel_keeps_tree(s: TreeState, n: TreeState)
    requires
        s.cancels_edit(n),
    ensures
        n.tree() == s.tree(),
        edit_view(n.edit_mode) is None,
{
}

pub proof fn lemma_digit_char(d: int)
    requires
        0 <= d < 10,
    ensures
        is_digit(digit_char(d)),
        digit_value(digit_char(d)) == d,
{
    assert(('0' as int) == 48);
    assert((48 + d) as char as int == 48 + d);
}

/// The decimal digits of `m` read back as `m`.
pub proof fn lemma_decimal(m: nat)
    ensures
        decimal(m).len() > 0,
        all_digits(decimal(m)),
        digits_value(decimal(m)) == m,
    decreases m,
{
    if m < 10 {
        lemma_digit_char(m as int);
        assert(decimal(m).drop_last() =~= Seq::<char>::empty());
        assert(digits_value(Seq::<char>::empty()) == 0);
        assert(decimal(m).last() == digit_char(m as int));
    } else {
        lemma_decimal(m / 10);
        lemma_digit_char((m % 10) as int);
        let d = decimal(m);
        assert(d.drop_last() =~= decimal(m / 10));
        assert(d.last() == digit_char((m % 10) as int));
        assert(digits_value(d) == digits_value(decimal(m / 10)) * 10 + (m % 10));
        assert((m / 10) * 10 + m % 10 == m);
        assert forall|i: int| 0 <= i < d.len() implies is_digit(#[trigger] d[i]) by {
            if i < d.len() - 1 {
                assert(d[i] == decimal(m / 10)[i]);
            }
        }
    }
}

/// An integer written out reads back as itself: confirming an integer
/// edit whose buffer holds the stored text stores the same text.
pub proof fn law_integer_text_round_trip(n: i64)
    ensures
        parse_i64(i64_text(n)) == Some(n),
        confirmed_value(KindView::Integer, i64_text(n), None) == Some(Json::Number(i64_text(n))),
{
    if n < 0 {
        let m = (-(n as int)) as nat;
        lemma_decimal(m);
        let s = i64_text(n);
        assert(s.drop_first() =~= decimal(m));
        assert(s[0] == '-');
    } else {
        lemma_decimal(n as nat);
        let s = i64_text(n);
        assert(is_digit(s[0]));
    }
}

// ---------------------------------------------------------------------
// Paths
// ---------------------------------------------------------------------

/// An update keeps the keys of the nodes at the top level.
pub proof fn lemma_update_keys(t: Seq<NodeView>, parts: Seq<Seq<char>>, f: spec_fn(NodeView) -> NodeView)
    requires
        forall|n: NodeView| (#[trigger] f(n)).key == n.key,
    ensures
        update_at(t, parts, f).len() == t.len(),
        forall|j: int| 0 <= j < t.len() ==> (#[trigger] update_at(t, parts, f)[j]).key == t[j].key,
{
    if parts.len() > 0 {
        lemma_key_index_spec(t, parts[0]);
    }
}

/// Same keys, same key index.
pub proof fn lemma_same_keys_index(t: Seq<NodeView>, u: Seq<NodeView>, k: Seq<char>)
    requires
        u.len() == t.len(),
        forall|j: int| 0 <= j < t.len() ==> (#[trigger] u[j]).key == t[j].key,
    ensures
        key_index(u, k) == key_index(t, k),
{
    lemma_key_index_spec(t, k);
    lemma_key_index_spec(u, k);
    if key_index(t, k) is Some {
        let i = key_index(t, k)->Some_0;
        assert forall|j: int| 0 <= j < i implies (#[trigger] u[j]).key != k by {
            assert(t[j].key != k);
        }
        assert(u[i].key == t[i].key);
        crate::paths::lemma_key_index(u, k, i);
    } else if key_index(u, k) is Some {
        let i = key_index(u, k)->Some_0;
        assert(u[i].key == t[i].key);
    }
}

/// A change at a path is read back at that path, for changes that keep
/// the node's key.
pub proof fn law_update_read_back(t: Seq<NodeView>, parts: Seq<Seq<char>>, f: spec_fn(NodeView) -> NodeView)
    requires
        forall|n: NodeView| (#[trigger] f(n)).key == n.key,
    ensures
        node_at(update_at(t, parts, f), parts) == match node_at(t, parts) {
            Some(n) => Some(f(n)),
            None => None,
        },
    decreases parts.len(),
{
    if parts.len() > 0 {
        lemma_key_index_spec(t, parts[0]);
        lemma_update_keys(t, parts, f);
        let u = update_at(t, parts, f);
        lemma_same_keys_index(t, u, parts[0]);
        match key_index(t, parts[0]) {
            None => {},
            Some(i) => {
                if parts.len() > 1 {
                    law_update_read_back(t[i].children, parts.drop_first(), f);
                }
            },
        }
    }
}

/// A change at a path leaves every other path alone, as long as neither
/// path leads through the other.
#[verifier::rlimit(50)]
pub proof fn law_update_elsewhere(
    t: Seq<NodeView>,
    parts: Seq<Seq<char>>,
    other: Seq<Seq<char>>,
    f: spec_fn(NodeView) -> NodeView,
)
    requires
        forall|n: NodeView| (#[trigger] f(n)).key == n.key,
        exists|j: int| 0 <= j < parts.len() && j < other.len() && parts[j] != other[j],
    ensures
        node_at(update_at(t, parts, f), other) == node_at(t, other),
    decreases parts.len(),
{
    let j0 = choose|j: int| 0 <= j < parts.len() && j < other.len() && parts[j] != other[j];
    lemma_key_index_spec(t, parts[0]);
    lemma_key_index_spec(t, other[0]);
    lemma_update_keys(t, parts, f);
    let u = update_at(t, parts, f);
    lemma_same_keys_index(t, u, other[0]);
    match key_index(t, parts[0]) {
        None => {},
        Some(i) => {
            if parts[0] != other[0] {
                if key_index(t, other[0]) is Some {
                    let k = key_index(t, other[0])->Some_0;
                    assert(k != i);
                    assert(u[k] == t[k]);
                }
            } else {
                assert(j0 > 0);
                if other.len() > 1 {
                    assert(parts.drop_first()[j0 - 1] != other.drop_first()[j0 - 1]);
                    law_update_elsewhere(t[i].children, parts.drop_first(), other.drop_first(), f);
                }
            }
        },
    }
}

/// Updating the same path twice is one update with both changes.
pub proof fn lemma_update_twice(
    t: Seq<NodeView>,
    parts: Seq<Seq<char>>,
    f: spec_fn(NodeView) -> NodeView,
    g: spec_fn(NodeView) -> NodeView,
)
    requires
        forall|n: NodeView| (#[trigger] f(n)).key == n.key,
    ensures
        update_at(update_at(t, parts, f), parts, g) == update_at(t, parts, |n: NodeView| g(f(n))),
    decreases parts.len(),
{
    if parts.len() > 0 {
        lemma_key_index_spec(t, parts[0]);
        lemma_update_keys(t, parts, f);
        let u = update_at(t, parts, f);
        lemma_same_keys_index(t, u, parts[0]);
        match key_index(t, parts[0]) {
            None => {},
            Some(i) => {
                if parts.len() > 1 {
                    lemma_update_twice(t[i].children, parts.drop_first(), f, g);
                    assert(update_at(u, parts, g) =~= update_at(t, parts, |n: NodeView| g(f(n))));
                } else {
                    assert(update_at(u, parts, g) =~= update_at(t, parts, |n: NodeView| g(f(n))));
                }
            },
        }
    }
}

/// An update that leaves the node it reaches as it is leaves the tree as
/// it is.
pub proof fn lemma_update_unchanged(t: Seq<NodeView>, parts: Seq<Seq<char>>, f: spec_fn(NodeView) -> NodeView)
    requires
        node_at(t, parts) matches Some(x) && f(x) == x,
    ensures
        update_at(t, parts, f) == t,
    decreases parts.len(),
{
    lemma_key_index_spec(t, parts[0]);
    let i = key_index(t, parts[0])->Some_0;
    if parts.len() > 1 {
        lemma_update_unchanged(t[i].children, parts.drop_first(), f);
        assert(NodeView { children: t[i].children, ..t[i] } == t[i]);
    }
    assert(update_at(t, parts, f) =~= t);
}

// ---------------------------------------------------------------------
// Trees whose paths name their nodes
// ---------------------------------------------------------------------

/// A key that can stand in a dotted path: not empty, without dots.
pub open spec fn path_key(k: Seq<char>) -> bool {
    k.len() > 0 && !k.contains('.')
}

/// Every key can stand in a path, siblings have distinct keys, at every
/// level. In such a tree each node has its own path, and the path leads
/// back to it.
pub open spec fn well_keyed(nodes: Seq<NodeView>) -> bool
    decreases nodes, 0int,
{
    if nodes.len() == 0 {
        true
    } else {
        &&& well_keyed(nodes.drop_last())
        &&& well_keyed_node(nodes.last())
        &&& forall|i: int| 0 <= i < nodes.len() - 1 ==> (#[trigger] nodes[i]).key != nodes.last().key
    }
}

pub open spec fn well_keyed_node(n: NodeView) -> bool
    decreases n, 1int,
{
    path_key(n.key) && well_keyed(n.children)
}

pub proof fn lemma_well_keyed(nodes: Seq<NodeView>)
    requires
        well_keyed(nodes),
    ensures
        forall|i: int| 0 <= i < nodes.len() ==> well_keyed_node(#[trigger] nodes[i]),
        forall|i: int, j: int| 0 <= i < j < nodes.len() ==> (#[trigger] nodes[i]).key != (#[trigger] nodes[j]).key,
    decreases nodes.len(),
{
    if nodes.len() > 0 {
        let d = nodes.drop_last();
        lemma_well_keyed(d);
        assert forall|i: int| 0 <= i < nodes.len() implies well_keyed_node(#[trigger] nodes[i]) by {
            if i < nodes.len() - 1 {
                assert(nodes[i] == d[i]);
            }
        }
        assert forall|i: int, j: int| 0 <= i < j < nodes.len() implies (#[trigger] nodes[i]).key != (#[trigger] nodes[j]).key by {
            if j < nodes.len() - 1 {
                assert(nodes[i] == d[i] && nodes[j] == d[j]);
            } else {
                assert(nodes[j] == nodes.last());
            }
        }
    }
}

pub proof fn lemma_well_keyed_from(nodes: Seq<NodeView>)
    requires
        forall|i: int| 0 <= i < nodes.len() ==> well_keyed_node(#[trigger] nodes[i]),
        forall|i: int, j: int| 0 <= i < j < nodes.len() ==> (#[trigger] nodes[i]).key != (#[trigger] nodes[j]).key,
    ensures
        well_keyed(nodes),
    decreases nodes.len(),
{
    if nodes.len() > 0 {
        let d = nodes.drop_last();
        assert forall|i: int, j: int| 0 <= i < j < d.len() implies (#[trigger] d[i]).key != (#[trigger] d[j]).key by {
            assert(d[i] == nodes[i] && d[j] == nodes[j]);
        }
        assert forall|i: int| 0 <= i < d.len() implies well_keyed_node(#[trigger] d[i]) by {
            assert(d[i] == nodes[i]);
        }
        lemma_well_keyed_from(d);
        assert(nodes.last() == nodes[nodes.len() - 1]);
    }
}

/// The path parts of a prefix: none for the top level.
pub open spec fn prefix_parts(prefix: Seq<char>, pre: Seq<Seq<char>>) -> bool {
    if prefix.len() == 0 {
        pre.len() == 0
    } else {
        split_dots(prefix) == pre
    }
}

/// In a well-keyed tree, the path of each visible row splits into the
/// prefix's parts followed by parts that lead, from the list the rows
/// come from, to the row's node.
pub proof fn lemma_vis_node_at(
    nodes: Seq<NodeView>,
    prefix: Seq<char>,
    pre: Seq<Seq<char>>,
    expanded: Set<Seq<char>>,
    shows: spec_fn(Seq<char>) -> bool,
    k: int,
)
    requires
        well_keyed(nodes),
        prefix_parts(prefix, pre),
        0 <= k < vis(nodes, prefix, expanded, shows).len(),
    ensures
        ({
            let row = vis(nodes, prefix, expanded, shows)[k];
            let parts = split_dots(row.1);
            &&& parts.len() > pre.len()
            &&& parts.take(pre.len() as int) == pre
            &&& node_at(nodes, parts.skip(pre.len() as int)) == Some(row.0)
            &&& row.1.len() > 0
        }),
    decreases nodes, 0int,
{
    let d = nodes.drop_last();
    let a = vis(d, prefix, expanded, shows);
    let b = vis_one(nodes.last(), prefix, expanded, shows);
    lemma_well_keyed(nodes);
    assert(well_keyed(d));
    if k < a.len() {
        assert(vis(nodes, prefix, expanded, shows)[k] == a[k]);
        lemma_vis_node_at(d, prefix, pre, expanded, shows, k);
        let row = a[k];
        let q = split_dots(row.1).skip(pre.len() as int);
        // the first part names a node of `d`, found at the same index in `nodes`
        lemma_key_index_spec(d, q[0]);
        lemma_key_index_spec(nodes, q[0]);
        let i = key_index(d, q[0])->Some_0;
        assert(nodes[i] == d[i]);
        assert forall|j: int| 0 <= j < i implies (#[trigger] nodes[j]).key != q[0] by {
            assert(nodes[j] == d[j]);
        }
        crate::paths::lemma_key_index(nodes, q[0], i);
    } else {
        assert(vis(nodes, prefix, expanded, shows)[k] == b[k - a.len()]);
        lemma_vis_one_node_at(nodes, prefix, pre, expanded, shows, k - a.len());
    }
}

/// The rows that the last node of `nodes` contributes (see
/// `lemma_vis_node_at`).
pub proof fn lemma_vis_one_node_at(
    nodes: Seq<NodeView>,
    prefix: Seq<char>,
    pre: Seq<Seq<char>>,
    expanded: Set<Seq<char>>,
    shows: spec_fn(Seq<char>) -> bool,
    k: int,
)
    requires
        nodes.len() > 0,
        well_keyed(nodes),
        prefix_parts(prefix, pre),
        0 <= k < vis_one(nodes.last(), prefix, expanded, shows).len(),
    ensures
        ({
            let row = vis_one(nodes.last(), prefix, expanded, shows)[k];
            let parts = split_dots(row.1);
            &&& parts.len() > pre.len()
            &&& parts.take(pre.len() as int) == pre
            &&& node_at(nodes, parts.skip(pre.len() as int)) == Some(row.0)
            &&& row.1.len() > 0
            &&& parts[pre.len() as int] == nodes.last().key
            &&& (k == 0 <==> parts.len() == pre.len() + 1)
        }),
    decreases nodes.last(), 1int,
{
    let n = nodes.last();
    let last = nodes.len() - 1;
    lemma_well_keyed(nodes);
    assert(nodes[last] == n);
    let path = crate::text::join_path(prefix, n.key);
    crate::text::lemma_split_join(prefix, n.key);
    let pp = split_dots(path);
    assert(pp == pre.push(n.key));
    assert(pp.take(pre.len() as int) =~= pre);
    assert(pp.skip(pre.len() as int) =~= seq![n.key]);
    assert(path.len() > 0) by {
        if prefix.len() == 0 {
            assert(path == n.key);
        } else {
            assert(path.len() == prefix.len() + 1 + n.key.len());
        }
    }
    assert forall|j: int| 0 <= j < last implies (#[trigger] nodes[j]).key != n.key by {
        assert(nodes[j].key != nodes[last].key);
    }
    crate::paths::lemma_key_index(nodes, n.key, last);
    if k == 0 {
        assert(node_at(nodes, seq![n.key]) == Some(n));
        assert(pp[pre.len() as int] == n.key);
    } else {
        // a row of the children, under `path`
        let c = vis(n.children, path, expanded, shows);
        assert(vis_one(n, prefix, expanded, shows) == seq![(n, path)] + c);
        assert(vis_one(n, prefix, expanded, shows)[k] == c[k - 1]);
        assert(decreases_to!(n => n.children));
        lemma_vis_node_at(n.children, path, pp, expanded, shows, k - 1);
        let row = c[k - 1];
        let parts = split_dots(row.1);
        let q = parts.skip(pp.len() as int);
        assert(parts.take(pre.len() as int) =~= pre) by {
            assert(parts.take(pp.len() as int) == pp);
            assert forall|j: int| 0 <= j < pre.len() implies parts[j] == pre[j] by {
                assert(parts.take(pp.len() as int)[j] == pp[j]);
            }
        }
        assert(parts[pre.len() as int] == n.key) by {
            assert(parts.take(pp.len() as int)[pre.len() as int] == pp[pre.len() as int]);
        }
        let r = parts.skip(pre.len() as int);
        assert(r[0] == n.key);
        assert(r.drop_first() =~= q);
        assert(parts.len() > pp.len());
    }
}

/// Two node lists with the same keys at every level.
pub open spec fn same_shape(a: Seq<NodeView>, b: Seq<NodeView>) -> bool
    decreases a, 0int,
{
    a.len() == b.len() && (a.len() == 0 || (same_shape(a.drop_last(), b.drop_last()) && same_shape_node(
        a.last(),
        b.last(),
    )))
}

pub open spec fn same_shape_node(x: NodeView, y: NodeView) -> bool
    decreases x, 1int,
{
    x.key == y.key && same_shape(x.children, y.children)
}

pub proof fn lemma_same_shape(a: Seq<NodeView>, b: Seq<NodeView>)
    requires
        same_shape(a, b),
    ensures
        a.len() == b.len(),
        forall|i: int| 0 <= i < a.len() ==> same_shape_node(#[trigger] a[i], b[i]),
    decreases a.len(),
{
    if a.len() > 0 {
        lemma_same_shape(a.drop_last(), b.drop_last());
        assert forall|i: int| 0 <= i < a.len() implies same_shape_node(#[trigger] a[i], b[i]) by {
            if i < a.len() - 1 {
                assert(a[i] == a.drop_last()[i] && b[i] == b.drop_last()[i]);
            }
        }
    }
}

pub proof fn lemma_same_shape_from(a: Seq<NodeView>, b: Seq<NodeView>)
    requires
        a.len() == b.len(),
        forall|i: int| 0 <= i < a.len() ==> same_shape_node(#[trigger] a[i], b[i]),
    ensures
        same_shape(a, b),
    decreases a.len(),
{
    if a.len() > 0 {
        assert forall|i: int| 0 <= i < a.drop_last().len() implies same_shape_node(
            #[trigger] a.drop_last()[i],
            b.drop_last()[i],
        ) by {
            assert(a.drop_last()[i] == a[i] && b.drop_last()[i] == b[i]);
        }
        lemma_same_shape_from(a.drop_last(), b.drop_last());
        assert(same_shape_node(a[a.len() - 1], b[a.len() - 1]));
    }
}

pub proof fn lemma_same_shape_refl(a: Seq<NodeView>)
    ensures
        same_shape(a, a),
    decreases a, 0int,
{
    if a.len() > 0 {
        lemma_same_shape_refl(a.drop_last());
        lemma_same_shape_node_refl(a.last());
    }
}

pub proof fn lemma_same_shape_node_refl(x: NodeView)
    ensures
        same_shape_node(x, x),
    decreases x, 1int,
{
    lemma_same_shape_refl(x.children);
}

/// An update that keeps each node's key and children keeps the shape.
pub proof fn lemma_update_same_shape(t: Seq<NodeView>, parts: Seq<Seq<char>>, f: spec_fn(NodeView) -> NodeView)
    requires
        forall|n: NodeView| (#[trigger] f(n)).key == n.key && f(n).children == n.children,
    ensures
        same_shape(t, update_at(t, parts, f)),
    decreases parts.len(),
{
    lemma_same_shape_refl(t);
    if parts.len() > 0 {
        lemma_key_index_spec(t, parts[0]);
        match key_index(t, parts[0]) {
            None => {},
            Some(i) => {
                let u = update_at(t, parts, f);
                lemma_same_shape(t, t);
                if parts.len() > 1 {
                    lemma_update_same_shape(t[i].children, parts.drop_first(), f);
                } else {
                    lemma_same_shape_refl(t[i].children);
                }
                assert(same_shape_node(t[i], u[i]));
                assert forall|j: int| 0 <= j < t.len() implies same_shape_node(#[trigger] t[j], u[j]) by {
                    if j != i {
                        assert(u[j] == t[j]);
                        lemma_same_shape_node_refl(t[j]);
                    }
                }
                lemma_same_shape_from(t, u);
            },
        }
    }
}

/// Lists of the same shape are equally well keyed.
pub proof fn lemma_same_shape_well_keyed(a: Seq<NodeView>, b: Seq<NodeView>)
    requires
        same_shape(a, b),
        well_keyed(a),
    ensures
        well_keyed(b),
    decreases a, 0int,
{
    if a.len() > 0 {
        lemma_same_shape_well_keyed(a.drop_last(), b.drop_last());
        assert(decreases_to!(a => a.last()));
        assert(decreases_to!(a.last() => a.last().children));
        assert(same_shape_node(a.last(), b.last()));
        assert(same_shape(a.last().children, b.last().children));
        assert(well_keyed_node(a.last()));
        lemma_same_shape_well_keyed(a.last().children, b.last().children);
        assert(well_keyed_node(b.last()));
        lemma_same_shape(a, b);
        assert forall|i: int| 0 <= i < b.len() - 1 implies (#[trigger] b[i]).key != b.last().key by {
            assert(same_shape_node(a[i], b[i]));
            assert(same_shape_node(a[a.len() - 1], b[b.len() - 1]));
            assert(a[i].key != a.last().key);
        }
    }
}

/// Lists of the same shape give visible rows with the same paths.
pub proof fn lemma_same_shape_vis(
    a: Seq<NodeView>,
    b: Seq<NodeView>,
    prefix: Seq<char>,
    expanded: Set<Seq<char>>,
    shows: spec_fn(Seq<char>) -> bool,
)
    requires
        same_shape(a, b),
    ensures
        vis(a, prefix, expanded, shows).len() == vis(b, prefix, expanded, shows).len(),
        forall|k: int| 0 <= k < vis(a, prefix, expanded, shows).len() ==> (#[trigger] vis(a, prefix, expanded, shows)[k]).1
            == vis(b, prefix, expanded, shows)[k].1,
    decreases a, 0int,
{
    if a.len() > 0 {
        lemma_same_shape_vis(a.drop_last(), b.drop_last(), prefix, expanded, shows);
        lemma_same_shape_vis_one(a.last(), b.last(), prefix, expanded, shows);
        let va = vis(a.drop_last(), prefix, expanded, shows);
        let vb = vis(b.drop_last(), prefix, expanded, shows);
        let wa = vis_one(a.last(), prefix, expanded, shows);
        let wb = vis_one(b.last(), prefix, expanded, shows);
        assert forall|k: int| 0 <= k < (va + wa).len() implies (#[trigger] (va + wa)[k]).1 == (vb + wb)[k].1 by {
            if k < va.len() {
                assert((va + wa)[k] == va[k] && (vb + wb)[k] == vb[k]);
            } else {
                assert((va + wa)[k] == wa[k - va.len()] && (vb + wb)[k] == wb[k - va.len()]);
            }
        }
    }
}

pub proof fn lemma_same_shape_vis_one(
    x: NodeView,
    y: NodeView,
    prefix: Seq<char>,
    expanded: Set<Seq<char>>,
    shows: spec_fn(Seq<char>) -> bool,
)
    requires
        same_shape_node(x, y),
    ensures
        vis_one(x, prefix, expanded, shows).len() == vis_one(y, prefix, expanded, shows).len(),
        forall|k: int| 0 <= k < vis_one(x, prefix, expanded, shows).len() ==> (#[trigger] vis_one(
            x,
            prefix,
            expanded,
            shows,
        )[k]).1 == vis_one(y, prefix, expanded, shows)[k].1,
    decreases x, 1int,
{
    let path = crate::text::join_path(prefix, x.key);
    lemma_same_shape(x.children, y.children);
    if shows(path) && expanded.contains(path) && x.children.len() > 0 {
        lemma_same_shape_vis(x.children, y.children, path, expanded, shows);
        let ca = vis(x.children, path, expanded, shows);
        let cb = vis(y.children, path, expanded, shows);
        assert forall|k: int| 0 <= k < (seq![(x, path)] + ca).len() implies (#[trigger] (seq![(x, path)] + ca)[k]).1
            == (seq![(y, path)] + cb)[k].1 by {
            if k > 0 {
                assert((seq![(x, path)] + ca)[k] == ca[k - 1] && (seq![(y, path)] + cb)[k] == cb[k - 1]);
            }
        }
    }
}

/// In a well-keyed tree, the selected row's node is the node its path
/// leads to.
pub proof fn lemma_selected_node_at(s: TreeState)
    requires
        well_keyed(s.tree()),
    ensures
        s.selected_entry() matches Some(e) ==> node_at(s.tree(), split_dots(e.1)) == Some(e.0),
{
    if s.selected_entry() is Some {
        lemma_vis_node_at(s.tree(), Seq::empty(), Seq::empty(), s.expanded_set(), s.shows(), s.selected as int);
        let e = s.selected_entry()->Some_0;
        assert(split_dots(e.1).skip(0) =~= split_dots(e.1));
    }
}

/// After the value of the selected node of a well-keyed tree changes,
/// the same row is selected, and it shows the node with its new value.
pub proof fn lemma_value_change_keeps_row(s: TreeState, m: TreeState, v: Json)
    requires
        well_keyed(s.tree()),
        s.selected_entry() is Some,
        m.same_but_tree(&s),
        m.tree() == changed_at(s.tree(), s.selected_entry()->Some_0.1, with_value(v)),
    ensures
        well_keyed(m.tree()),
        m.selected_entry() == Some(((with_value(v))(s.selected_entry()->Some_0.0), s.selected_entry()->Some_0.1)),
{
    let e = s.selected_entry()->Some_0;
    let q = split_dots(e.1);
    lemma_update_same_shape(s.tree(), q, with_value(v));
    lemma_same_shape_well_keyed(s.tree(), m.tree());
    lemma_same_shape_vis(s.tree(), m.tree(), Seq::empty(), s.expanded_set(), s.shows());
    assert(m.expanded_set() == s.expanded_set());
    assert(m.shows() == s.shows());
    lemma_selected_node_at(s);
    lemma_selected_node_at(m);
    law_update_read_back(s.tree(), q, with_value(v));
}

/// Flipping a boolean twice gives back the tree it started from (the
/// tree being well keyed and the value a boolean).
pub proof fn law_toggle_bool_twice(s: TreeState, m: TreeState, n: TreeState)
    requires
        well_keyed(s.tree()),
        s.selected_entry() matches Some(e) && e.0.kind == KindView::Bool && e.0.value is Bool,
        s.toggles_bool(m),
        m.toggles_bool(n),
    ensures
        n.tree() == s.tree(),
{
    let e = s.selected_entry()->Some_0;
    let b = bool_or_false(e.0.value);
    let q = split_dots(e.1);
    lemma_value_change_keeps_row(s, m, Json::Bool(!b));
    lemma_update_twice(s.tree(), q, with_value(Json::Bool(!b)), with_value(Json::Bool(b)));
    let g = |x: NodeView| (with_value(Json::Bool(b)))((with_value(Json::Bool(!b)))(x));
    lemma_selected_node_at(s);
    assert(g(e.0) == e.0);
    lemma_update_unchanged(s.tree(), q, g);
}

/// Confirming an edit of a string stores the buffer: the same row stays
/// selected and now holds the buffer's text (the tree being well keyed).
pub proof fn law_confirmed_string_is_stored(s: TreeState, n: TreeState, float_reading: Option<Seq<char>>, changed: bool)
    requires
        well_keyed(s.tree()),
        edit_view(s.edit_mode) is Some,
        s.selected_entry() matches Some(e) && effective_kind(e.0.kind) == KindView::String,
        s.confirms_edit(n, float_reading, changed),
    ensures
        changed,
        edit_view(n.edit_mode) is None,
        n.selected_entry() == Some(
            (
                NodeView { value: Json::Str(edit_view(s.edit_mode)->Some_0.0), ..s.selected_entry()->Some_0.0 },
                s.selected_entry()->Some_0.1,
            ),
        ),
{
    let b = edit_view(s.edit_mode)->Some_0.0;
    let e = s.selected_entry()->Some_0;
    let m = TreeState { edit_mode: s.edit_mode, ..n };
    assert(m.same_but_tree(&s));
    assert(m.selected_entry() == n.selected_entry());
    lemma_value_change_keeps_row(s, m, Json::Str(b));
}

// ---------------------------------------------------------------------
// Expansion
// ---------------------------------------------------------------------

/// In a well-keyed tree, no two visible rows have the same path.
pub proof fn lemma_vis_paths_distinct(
    nodes: Seq<NodeView>,
    prefix: Seq<char>,
    pre: Seq<Seq<char>>,
    expanded: Set<Seq<char>>,
    shows: spec_fn(Seq<char>) -> bool,
)
    requires
        well_keyed(nodes),
        prefix_parts(prefix, pre),
    ensures
        forall|i: int, j: int|
            0 <= i < j < vis(nodes, prefix, expanded, shows).len() ==> (#[trigger] vis(nodes, prefix, expanded, shows)[i]).1
                != (#[trigger] vis(nodes, prefix, expanded, shows)[j]).1,
    decreases nodes, 0int,
{
    if nodes.len() > 0 {
        let d = nodes.drop_last();
        let a = vis(d, prefix, expanded, shows);
        let b = vis_one(nodes.last(), prefix, expanded, shows);
        let r = vis(nodes, prefix, expanded, shows);
        lemma_well_keyed(nodes);
        lemma_vis_paths_distinct(d, prefix, pre, expanded, shows);
        lemma_vis_one_paths_distinct(nodes, prefix, pre, expanded, shows);
        assert forall|i: int, j: int| 0 <= i < j < r.len() implies (#[trigger] r[i]).1 != (#[trigger] r[j]).1 by {
            if j < a.len() {
                assert(r[i] == a[i] && r[j] == a[j]);
            } else if i >= a.len() {
                assert(r[i] == b[i - a.len()] && r[j] == b[j - a.len()]);
            } else {
                assert(r[i] == a[i] && r[j] == b[j - a.len()]);
                lemma_vis_node_at(d, prefix, pre, expanded, shows, i);
                lemma_vis_one_node_at(nodes, prefix, pre, expanded, shows, j - a.len());
                let q = split_dots(a[i].1).skip(pre.len() as int);
                lemma_key_index_spec(d, q[0]);
                let x = key_index(d, q[0])->Some_0;
                assert(d[x] == nodes[x]);
                assert(nodes[x].key != nodes[nodes.len() - 1].key);
                assert(split_dots(a[i].1)[pre.len() as int] == q[0]);
                if a[i].1 == b[j - a.len()].1 {
                    assert(split_dots(a[i].1)[pre.len() as int] == nodes.last().key);
                }
            }
        }
    }
}

pub proof fn lemma_vis_one_paths_distinct(
    nodes: Seq<NodeView>,
    prefix: Seq<char>,
    pre: Seq<Seq<char>>,
    expanded: Set<Seq<char>>,
    shows: spec_fn(Seq<char>) -> bool,
)
    requires
        nodes.len() > 0,
        well_keyed(nodes),
        prefix_parts(prefix, pre),
    ensures
        forall|i: int, j: int|
            0 <= i < j < vis_one(nodes.last(), prefix, expanded, shows).len() ==> (#[trigger] vis_one(
                nodes.last(),
                prefix,
                expanded,
                shows,
            )[i]).1 != (#[trigger] vis_one(nodes.last(), prefix, expanded, shows)[j]).1,
    decreases nodes.last(), 1int,
{
    let n = nodes.last();
    let b = vis_one(n, prefix, expanded, shows);
    lemma_well_keyed(nodes);
    assert(nodes[nodes.len() - 1] == n);
    let path = crate::text::join_path(prefix, n.key);
    if b.len() > 1 {
        crate::text::lemma_split_join(prefix, n.key);
        let pp = split_dots(path);
        assert(path.len() > 0) by {
            if prefix.len() == 0 {
                assert(path == n.key);
            } else {
                assert(path.len() == prefix.len() + 1 + n.key.len());
            }
        }
        let c = vis(n.children, path, expanded, shows);
        assert(b == seq![(n, path)] + c);
        assert(decreases_to!(n => n.children));
        lemma_vis_paths_distinct(n.children, path, pp, expanded, shows);
        assert forall|i: int, j: int| 0 <= i < j < b.len() implies (#[trigger] b[i]).1 != (#[trigger] b[j]).1 by {
            lemma_vis_one_node_at(nodes, prefix, pre, expanded, shows, i);
            lemma_vis_one_node_at(nodes, prefix, pre, expanded, shows, j);
            if i > 0 {
                assert(b[i] == c[i - 1] && b[j] == c[j - 1]);
            }
        }
    }
}

/// Expansion is asked only at the paths of visible rows: two expanded
/// sets that agree there give the same rows.
pub proof fn lemma_vis_agree(
    nodes: Seq<NodeView>,
    prefix: Seq<char>,
    e1: Set<Seq<char>>,
    e2: Set<Seq<char>>,
    shows: spec_fn(Seq<char>) -> bool,
)
    requires
        forall|k: int| 0 <= k < vis(nodes, prefix, e1, shows).len() ==> e1.contains(
            (#[trigger] vis(nodes, prefix, e1, shows)[k]).1,
        ) == e2.contains(vis(nodes, prefix, e1, shows)[k].1),
    ensures
        vis(nodes, prefix, e2, shows) == vis(nodes, prefix, e1, shows),
    decreases nodes, 0int,
{
    if nodes.len() > 0 {
        let a = vis(nodes.drop_last(), prefix, e1, shows);
        let b = vis_one(nodes.last(), prefix, e1, shows);
        let r = vis(nodes, prefix, e1, shows);
        assert forall|k: int| 0 <= k < a.len() implies e1.contains((#[trigger] a[k]).1) == e2.contains(a[k].1) by {
            assert(r[k] == a[k]);
        }
        assert forall|k: int| 0 <= k < b.len() implies e1.contains((#[trigger] b[k]).1) == e2.contains(b[k].1) by {
            assert(r[k + a.len()] == b[k]);
        }
        lemma_vis_agree(nodes.drop_last(), prefix, e1, e2, shows);
        lemma_vis_one_agree(nodes.last(), prefix, e1, e2, shows);
    }
}

pub proof fn lemma_vis_one_agree(
    n: NodeView,
    prefix: Seq<char>,
    e1: Set<Seq<char>>,
    e2: Set<Seq<char>>,
    shows: spec_fn(Seq<char>) -> bool,
)
    requires
        forall|k: int| 0 <= k < vis_one(n, prefix, e1, shows).len() ==> e1.contains(
            (#[trigger] vis_one(n, prefix, e1, shows)[k]).1,
        ) == e2.contains(vis_one(n, prefix, e1, shows)[k].1),
    ensures
        vis_one(n, prefix, e2, shows) == vis_one(n, prefix, e1, shows),
    decreases n, 1int,
{
    let path = crate::text::join_path(prefix, n.key);
    let b = vis_one(n, prefix, e1, shows);
    if shows(path) {
        assert(b[0] == (n, path));
        if e1.contains(path) && n.children.len() > 0 {
            let c = vis(n.children, path, e1, shows);
            assert(b == seq![(n, path)] + c);
            assert forall|k: int| 0 <= k < c.len() implies e1.contains((#[trigger] c[k]).1) == e2.contains(c[k].1) by {
                assert(b[k + 1] == c[k]);
            }
            lemma_vis_agree(n.children, path, e1, e2, shows);
        }
    }
}

/// Rows up to row `m` depend only on expansion at the rows before it.
pub proof fn lemma_vis_agree_upto(
    nodes: Seq<NodeView>,
    prefix: Seq<char>,
    e1: Set<Seq<char>>,
    e2: Set<Seq<char>>,
    shows: spec_fn(Seq<char>) -> bool,
    m: int,
)
    requires
        0 <= m < vis(nodes, prefix, e1, shows).len(),
        forall|k: int| 0 <= k < m ==> e1.contains((#[trigger] vis(nodes, prefix, e1, shows)[k]).1) == e2.contains(
            vis(nodes, prefix, e1, shows)[k].1,
        ),
    ensures
        vis(nodes, prefix, e2, shows).len() > m,
        vis(nodes, prefix, e2, shows).take(m + 1) == vis(nodes, prefix, e1, shows).take(m + 1),
    decreases nodes, 0int,
{
    let a = vis(nodes.drop_last(), prefix, e1, shows);
    let b = vis_one(nodes.last(), prefix, e1, shows);
    let r = vis(nodes, prefix, e1, shows);
    let a2 = vis(nodes.drop_last(), prefix, e2, shows);
    let b2 = vis_one(nodes.last(), prefix, e2, shows);
    let r2 = vis(nodes, prefix, e2, shows);
    if m < a.len() {
        assert forall|k: int| 0 <= k < m implies e1.contains((#[trigger] a[k]).1) == e2.contains(a[k].1) by {
            assert(r[k] == a[k]);
        }
        lemma_vis_agree_upto(nodes.drop_last(), prefix, e1, e2, shows, m);
        assert(r2.take(m + 1) =~= a2.take(m + 1));
        assert(r.take(m + 1) =~= a.take(m + 1));
    } else {
        assert forall|k: int| 0 <= k < a.len() implies e1.contains((#[trigger] a[k]).1) == e2.contains(a[k].1) by {
            assert(r[k] == a[k]);
        }
        lemma_vis_agree(nodes.drop_last(), prefix, e1, e2, shows);
        assert forall|k: int| 0 <= k < m - a.len() implies e1.contains((#[trigger] b[k]).1) == e2.contains(b[k].1) by {
            assert(r[k + a.len()] == b[k]);
        }
        lemma_vis_one_agree_upto(nodes.last(), prefix, e1, e2, shows, m - a.len());
        assert(r2.take(m + 1) =~= a + b2.take(m + 1 - a.len()));
        assert(r.take(m + 1) =~= a + b.take(m + 1 - a.len()));
    }
}

pub proof fn lemma_vis_one_agree_upto(
    n: NodeView,
    prefix: Seq<char>,
    e1: Set<Seq<char>>,
    e2: Set<Seq<char>>,
    shows: spec_fn(Seq<char>) -> bool,
    m: int,
)
    requires
        0 <= m < vis_one(n, prefix, e1, shows).len(),
        forall|k: int| 0 <= k < m ==> e1.contains((#[trigger] vis_one(n, prefix, e1, shows)[k]).1) == e2.contains(
            vis_one(n, prefix, e1, shows)[k].1,
        ),
    ensures
        vis_one(n, prefix, e2, shows).len() > m,
        vis_one(n, prefix, e2, shows).take(m + 1) == vis_one(n, prefix, e1, shows).take(m + 1),
    decreases n, 1int,
{
    let path = crate::text::join_path(prefix, n.key);
    let b = vis_one(n, prefix, e1, shows);
    let b2 = vis_one(n, prefix, e2, shows);
    assert(shows(path));
    assert(b[0] == (n, path) && b2[0] == (n, path));
    if m == 0 {
        assert(b.take(1) =~= seq![(n, path)]);
        assert(b2.take(1) =~= seq![(n, path)]);
    } else {
        assert(e1.contains(b[0].1) == e2.contains(b[0].1));
        let c = vis(n.children, path, e1, shows);
        let c2 = vis(n.children, path, e2, shows);
        assert(b == seq![(n, path)] + c);
        assert(b2 == seq![(n, path)] + c2);
        assert forall|k: int| 0 <= k < m - 1 implies e1.contains((#[trigger] c[k]).1) == e2.contains(c[k].1) by {
            assert(b[k + 1] == c[k]);
        }
        lemma_vis_agree_upto(n.children, path, e1, e2, shows, m - 1);
        assert(b2.take(m + 1) =~= seq![(n, path)] + c2.take(m));
        assert(b.take(m + 1) =~= seq![(n, path)] + c.take(m));
    }
}

/// No two visible rows share a path.
pub open spec fn visible_paths_distinct(s: TreeState) -> bool {
    forall|i: int, j: int|
        0 <= i < j < s.visible_list().len() ==> (#[trigger] s.visible_list()[i]).1 != (#[trigger] s.visible_list()[j]).1
}

/// In a well-keyed tree, no two visible rows share a path.
pub proof fn lemma_well_keyed_paths_distinct(s: TreeState)
    requires
        well_keyed(s.tree()),
    ensures
        visible_paths_distinct(s),
{
    lemma_vis_paths_distinct(s.tree(), Seq::empty(), Seq::empty(), s.expanded_set(), s.shows());
}

/// Expanding or collapsing the selected node keeps the same row selected
/// (no two visible rows sharing a path).
pub proof fn lemma_toggle_keeps_selection(s: TreeState, m: TreeState)
    requires
        visible_paths_distinct(s),
        s.toggles_expand(m),
    ensures
        m.selected_entry() == s.selected_entry(),
{
    let r = s.visible_list();
    let r2 = m.visible_list();
    assert(m.tree() == s.tree() && m.shows() == s.shows());
    match s.selected_entry() {
        None => {
            assert(m.expanded_set() == s.expanded_set());
        },
        Some(e) => {
            let k = s.selected as int;
            if !expandable(e.0) {
                assert(m.expanded_set() == s.expanded_set());
            } else {
                assert forall|j: int| 0 <= j < k implies s.expanded_set().contains((#[trigger] r[j]).1)
                    == m.expanded_set().contains(r[j].1) by {
                    assert(r[j].1 != r[k].1);
                }
                lemma_vis_agree_upto(s.tree(), Seq::empty(), s.expanded_set(), m.expanded_set(), s.shows(), k);
                assert(r2.take(k + 1)[k] == r.take(k + 1)[k]);
            }
        },
    }
}

/// Expanding or collapsing the selected node twice gives back the set of
/// expanded paths it started from, whenever no two visible rows share a
/// path (as in a well-keyed tree, or one whose dotted keys collide with
/// nothing).
pub proof fn law_toggle_expand_twice(s: TreeState, m: TreeState, n: TreeState)
    requires
        visible_paths_distinct(s),
        s.toggles_expand(m),
        m.toggles_expand(n),
    ensures
        n.expanded_set() == s.expanded_set(),
        n.tree() == s.tree(),
        n.selected == s.selected,
{
    lemma_toggle_keeps_selection(s, m);
    if s.selected_entry() is Some {
        let e = s.selected_entry()->Some_0;
        if expandable(e.0) {
            if s.expanded_set().contains(e.1) {
                assert(n.expanded_set() =~= s.expanded_set());
            } else {
                assert(n.expanded_set() =~= s.expanded_set());
            }
        }
    }
}

/// Expanding the selected node keeps the same row selected (no two
/// visible rows sharing a path).
pub proof fn lemma_expand_keeps_selection(s: TreeState, m: TreeState)
    requires
        visible_paths_distinct(s),
        s.expands_selected(m),
    ensures
        m.selected_entry() == s.selected_entry(),
{
    let r = s.visible_list();
    let r2 = m.visible_list();
    assert(m.tree() == s.tree() && m.shows() == s.shows());
    match s.selected_entry() {
        None => {
            assert(m.expanded_set() == s.expanded_set());
        },
        Some(e) => {
            let k = s.selected as int;
            if !expandable(e.0) {
                assert(m.expanded_set() == s.expanded_set());
            } else {
                assert forall|j: int| 0 <= j < k implies s.expanded_set().contains((#[trigger] r[j]).1)
                    == m.expanded_set().contains(r[j].1) by {
                    assert(r[j].1 != r[k].1);
                }
                lemma_vis_agree_upto(s.tree(), Seq::empty(), s.expanded_set(), m.expanded_set(), s.shows(), k);
                assert(r2.take(k + 1)[k] == r.take(k + 1)[k]);
            }
        },
    }
}

/// Expanding the selected node adds its path to the expanded paths, and
/// expanding it again changes nothing (no two visible rows sharing a
/// path).
pub proof fn law_expand_twice_is_expand_once(s: TreeState, m: TreeState, n: TreeState)
    requires
        visible_paths_distinct(s),
        s.expands_selected(m),
        m.expands_selected(n),
    ensures
        (s.selected_entry() matches Some(e) && expandable(e.0)) ==> m.expanded_set() == s.expanded_set().insert(
            s.selected_entry()->Some_0.1,
        ),
        n.expanded_set() == m.expanded_set(),
        n.tree() == s.tree(),
{
    lemma_expand_keeps_selection(s, m);
    if s.selected_entry() is Some {
        let e = s.selected_entry()->Some_0;
        if expandable(e.0) {
            assert(n.expanded_set() =~= m.expanded_set());
        }
    }
}

// ---------------------------------------------------------------------
// The configuration value
// ---------------------------------------------------------------------

/// The value reached from `v` through the object keys `parts`.
pub open spec fn json_at(v: Json, parts: Seq<Seq<char>>) -> Option<Json>
    decreases parts.len(),
{
    if parts.len() == 0 {
        Some(v)
    } else {
        match v {
            Json::Object(e) => match obj_get(e, parts[0]) {
                Some(x) => json_at(x, parts.drop_first()),
                None => None,
            },
            _ => None,
        }
    }
}

/// `parts` leads to a node through struct nodes only.
pub open spec fn struct_path(t: Seq<NodeView>, parts: Seq<Seq<char>>) -> bool
    decreases parts.len(),
{
    parts.len() > 0 && match key_index(t, parts[0]) {
        Some(i) => parts.len() == 1 || (t[i].kind is Struct && struct_path(t[i].children, parts.drop_first())),
        None => false,
    }
}

pub open spec fn is_scalar_kind(k: KindView) -> bool {
    k is String || k is Integer || k is Float || k is Bool
}

/// The configuration value holds, at the path of a node reached through
/// structs, that node's value as its parent object holds it (the tree
/// being well keyed).
pub proof fn lemma_json_at_path(t: Seq<NodeView>, parts: Seq<Seq<char>>)
    requires
        well_keyed(t),
        struct_path(t, parts),
    ensures
        node_at(t, parts) is Some,
        json_at(nodes_json(t), parts) == Some(node_json(node_at(t, parts)->Some_0)),
    decreases parts.len(),
{
    lemma_well_keyed(t);
    lemma_key_index_spec(t, parts[0]);
    let i = key_index(t, parts[0])->Some_0;
    let e = entries_of(t);
    assert forall|j: int| 0 <= j < t.len() && (#[trigger] t[j]).key == parts[0] implies node_json(t[j]) == node_json(t[i]) by {
        if j != i {
            assert(t[j].key != t[i].key);
        }
    }
    lemma_entries_of_get(t, parts[0], node_json(t[i]));
    assert(crate::json::obj_get(e, parts[0]) == Some(node_json(t[i])));
    assert(nodes_json(t) == Json::Object(e));
    assert(json_at(nodes_json(t), parts) == json_at(node_json(t[i]), parts.drop_first()));
    if parts.len() > 1 {
        assert(well_keyed_node(t[i]));
        lemma_json_at_path(t[i].children, parts.drop_first());
        assert(node_json(t[i]) == nodes_json(t[i].children));
    }
}

/// The configuration value holds, at the path of a scalar node reached
/// through structs, that node's value (the tree being well keyed).
pub proof fn law_value_at_path(t: Seq<NodeView>, parts: Seq<Seq<char>>)
    requires
        well_keyed(t),
        struct_path(t, parts),
        node_at(t, parts) matches Some(n) && is_scalar_kind(n.kind),
    ensures
        json_at(nodes_json(t), parts) == Some(node_at(t, parts)->Some_0.value),
{
    lemma_json_at_path(t, parts);
}

/// An update that keeps keys keeps a path through structs.
pub proof fn lemma_update_struct_path(
    t: Seq<NodeView>,
    parts: Seq<Seq<char>>,
    f: spec_fn(NodeView) -> NodeView,
)
    requires
        forall|n: NodeView| (#[trigger] f(n)).key == n.key,
        struct_path(t, parts),
    ensures
        struct_path(update_at(t, parts, f), parts),
    decreases parts.len(),
{
    lemma_key_index_spec(t, parts[0]);
    lemma_update_keys(t, parts, f);
    let u = update_at(t, parts, f);
    lemma_same_keys_index(t, u, parts[0]);
    let i = key_index(t, parts[0])->Some_0;
    if parts.len() > 1 {
        lemma_update_struct_path(t[i].children, parts.drop_first(), f);
    }
}

/// An update that keeps keys and keeps nodes well keyed keeps the tree
/// well keyed.
pub proof fn lemma_update_well_keyed(t: Seq<NodeView>, parts: Seq<Seq<char>>, f: spec_fn(NodeView) -> NodeView)
    requires
        forall|n: NodeView| #[trigger] f(n).key == n.key && (well_keyed_node(n) ==> well_keyed_node(f(n))),
        well_keyed(t),
    ensures
        well_keyed(update_at(t, parts, f)),
    decreases parts.len(),
{
    lemma_well_keyed(t);
    if parts.len() > 0 {
        lemma_key_index_spec(t, parts[0]);
        match key_index(t, parts[0]) {
            None => {},
            Some(i) => {
                let u = update_at(t, parts, f);
                assert(well_keyed_node(t[i]));
                if parts.len() > 1 {
                    lemma_update_well_keyed(t[i].children, parts.drop_first(), f);
                }
                assert(well_keyed_node(u[i]));
                assert forall|j: int| 0 <= j < u.len() implies well_keyed_node(#[trigger] u[j]) by {
                    if j != i {
                        assert(u[j] == t[j]);
                    }
                }
                assert forall|x: int, y: int| 0 <= x < y < u.len() implies (#[trigger] u[x]).key != (#[trigger] u[y]).key by {
                    assert(u[x].key == t[x].key && u[y].key == t[y].key);
                }
                lemma_well_keyed_from(u);
            },
        }
    }
}

/// Clearing a present optional reached through structs makes its value
/// in the configuration null (the tree being well keyed).
pub proof fn law_cleared_option_is_null(s: TreeState, n: TreeState)
    requires
        well_keyed(s.tree()),
        s.selected_entry() matches Some(e) && e.0.kind is Option && e.0.kind->Option_is_some
            && struct_path(s.tree(), split_dots(e.1)),
        s.toggles_option(n),
    ensures
        json_at(nodes_json(n.tree()), split_dots(s.selected_entry()->Some_0.1)) == Some(Json::Null),
{
    let e = s.selected_entry()->Some_0;
    let q = split_dots(e.1);
    let f = with_option_state(false, Json::Null, Seq::empty());
    assert forall|x: NodeView| #[trigger] f(x).key == x.key && (well_keyed_node(x) ==> well_keyed_node(f(x))) by {
        assert(f(x).children.len() == 0);
    }
    lemma_selected_node_at(s);
    lemma_update_well_keyed(s.tree(), q, f);
    lemma_update_struct_path(s.tree(), q, f);
    law_update_read_back(s.tree(), q, f);
    lemma_json_at_path(n.tree(), q);
}

/// Confirming an edit of a string field reached through structs puts the
/// buffer's text into the configuration value at that field's path (the
/// tree being well keyed).
pub proof fn law_confirmed_string_in_value(s: TreeState, n: TreeState, float_reading: Option<Seq<char>>, changed: bool)
    requires
        well_keyed(s.tree()),
        edit_view(s.edit_mode) is Some,
        s.selected_entry() matches Some(e) && e.0.kind == KindView::String && struct_path(s.tree(), split_dots(e.1)),
        s.confirms_edit(n, float_reading, changed),
    ensures
        json_at(nodes_json(n.tree()), split_dots(s.selected_entry()->Some_0.1)) == Some(
            Json::Str(edit_view(s.edit_mode)->Some_0.0),
        ),
{
    let b = edit_view(s.edit_mode)->Some_0.0;
    let e = s.selected_entry()->Some_0;
    let q = split_dots(e.1);
    lemma_selected_node_at(s);
    lemma_update_same_shape(s.tree(), q, with_value(Json::Str(b)));
    lemma_same_shape_well_keyed(s.tree(), n.tree());
    law_update_read_back(s.tree(), q, with_value(Json::Str(b)));
    lemma_update_struct_path(s.tree(), q, with_value(Json::Str(b)));
    law_value_at_path(n.tree(), q);
}

// ---------------------------------------------------------------------
// Reading a fresh tree back
// ---------------------------------------------------------------------

proof fn first_entry_from(e: Seq<(Seq<char>, Json)>, k: Seq<char>, i: int) -> (j: int)
    requires
        0 <= i <= e.len(),
        forall|j: int| 0 <= j < i ==> (#[trigger] e[j]).0 != k,
        exists|j: int| i <= j < e.len() && (#[trigger] e[j]).0 == k,
    ensures
        0 <= j < e.len(),
        e[j].0 == k,
        forall|l: int| 0 <= l < j ==> (#[trigger] e[l]).0 != k,
    decreases e.len() - i,
{
    if e[i].0 == k {
        i
    } else {
        first_entry_from(e, k, i + 1)
    }
}

/// What `first_index` gives: the first entry with the key, or none.
pub proof fn lemma_first_index_spec(e: Seq<(Seq<char>, Json)>, k: Seq<char>)
    ensures
        first_index(e, k) matches Some(i) ==> {
            &&& 0 <= i < e.len()
            &&& e[i].0 == k
            &&& forall|j: int| 0 <= j < i ==> (#[trigger] e[j]).0 != k
        },
        first_index(e, k) is None ==> forall|j: int| 0 <= j < e.len() ==> (#[trigger] e[j]).0 != k,
{
    if exists|i: int| 0 <= i < e.len() && (#[trigger] e[i]).0 == k {
        let j = first_entry_from(e, k, 0);
        crate::json::lemma_first_index(e, k, j);
    }
}

/// The insertion place lies within the entries.
proof fn lemma_insert_pos_range(e: Seq<(Seq<char>, Json)>, k: Seq<char>)
    ensures
        0 <= crate::json::insert_pos(e, k) <= e.len(),
{
    if exists|i: int| 0 <= i < e.len() && crate::json::key_less(k, (#[trigger] e[i]).0) {
        let w = choose|w: int| 0 <= w < e.len() && crate::json::key_less(k, (#[trigger] e[w]).0);
        crate::json::lemma_least_key_after(e, k, w);
    }
}

/// An inserted value is read back.
pub proof fn lemma_obj_insert_same(e: Seq<(Seq<char>, Json)>, k: Seq<char>, v: Json)
    ensures
        obj_get(obj_insert(e, k, v), k) == Some(v),
{
    lemma_first_index_spec(e, k);
    let u = obj_insert(e, k, v);
    match first_index(e, k) {
        Some(i) => {
            assert forall|j: int| 0 <= j < i implies (#[trigger] u[j]).0 != k by {
                assert(u[j] == e[j]);
            }
            crate::json::lemma_first_index(u, k, i);
        },
        None => {
            lemma_insert_pos_range(e, k);
            let p = crate::json::insert_pos(e, k);
            assert forall|j: int| 0 <= j < p implies (#[trigger] u[j]).0 != k by {
                assert(u[j] == e[j]);
            }
            assert(u[p] == (k, v));
            crate::json::lemma_first_index(u, k, p);
        },
    }
}

/// Inserting under one key leaves the others alone.
#[verifier::spinoff_prover]
#[verifier::rlimit(40)]
pub proof fn lemma_obj_insert_other(e: Seq<(Seq<char>, Json)>, k2: Seq<char>, v: Json, k: Seq<char>)
    requires
        k2 != k,
    ensures
        obj_get(obj_insert(e, k2, v), k) == obj_get(e, k),
{
    lemma_first_index_spec(e, k2);
    lemma_first_index_spec(e, k);
    let u = obj_insert(e, k2, v);
    match first_index(e, k2) {
        Some(i2) => {
            assert(forall|j: int| 0 <= j < e.len() ==> (#[trigger] u[j]).0 == e[j].0);
            match first_index(e, k) {
                Some(i) => {
                    assert forall|j: int| 0 <= j < i implies (#[trigger] u[j]).0 != k by {
                        assert(u[j].0 == e[j].0);
                    }
                    assert(u[i] == e[i]);
                    crate::json::lemma_first_index(u, k, i);
                },
                None => {
                    lemma_first_index_spec(u, k);
                    if first_index(u, k) is Some {
                        let i = first_index(u, k)->Some_0;
                        assert(u[i].0 == e[i].0);
                    }
                },
            }
        },
        None => {
            lemma_insert_pos_range(e, k2);
            let p = crate::json::insert_pos(e, k2);
            assert(u.len() == e.len() + 1);
            assert(forall|j: int| 0 <= j < p ==> (#[trigger] u[j]) == e[j]);
            assert(forall|j: int| p < j < u.len() ==> (#[trigger] u[j]) == e[j - 1]);
            assert(u[p].0 == k2);
            match first_index(e, k) {
                Some(i) => {
                    if i < p {
                        assert forall|j: int| 0 <= j < i implies (#[trigger] u[j]).0 != k by {
                            assert(u[j] == e[j]);
                        }
                        assert(u[i] == e[i]);
                        crate::json::lemma_first_index(u, k, i);
                    } else {
                        assert forall|j: int| 0 <= j < i + 1 implies (#[trigger] u[j]).0 != k by {
                            if j < p {
                                assert(u[j] == e[j]);
                            } else if j > p {
                                assert(u[j] == e[j - 1]);
                            }
                        }
                        assert(u[i + 1] == e[i]);
                        crate::json::lemma_first_index(u, k, i + 1);
                    }
                },
                None => {
                    lemma_first_index_spec(u, k);
                    if first_index(u, k) is Some {
                        let i = first_index(u, k)->Some_0;
                        if i < p {
                            assert(u[i] == e[i]);
                        } else if i > p {
                            assert(u[i] == e[i - 1]);
                        }
                    }
                },
            }
        },
    }
}

/// The object of a node list holds, for a key that some node has, the
/// value that every node with that key has.
pub proof fn lemma_entries_of_get(t: Seq<NodeView>, k: Seq<char>, v: Json)
    requires
        exists|i: int| 0 <= i < t.len() && (#[trigger] t[i]).key == k,
        forall|i: int| 0 <= i < t.len() && (#[trigger] t[i]).key == k ==> node_json(t[i]) == v,
    ensures
        obj_get(entries_of(t), k) == Some(v),
    decreases t.len(),
{
    let d = t.drop_last();
    let l = t.last();
    assert(t[t.len() - 1] == l);
    if l.key == k {
        lemma_obj_insert_same(entries_of(d), k, v);
    } else {
        let i = choose|i: int| 0 <= i < t.len() && (#[trigger] t[i]).key == k;
        assert(d[i] == t[i]);
        assert forall|j: int| 0 <= j < d.len() && (#[trigger] d[j]).key == k implies node_json(d[j]) == v by {
            assert(d[j] == t[j]);
        }
        lemma_entries_of_get(d, k, v);
        lemma_obj_insert_other(entries_of(d), l.key, node_json(l), k);
    }
}

/// A plain scalar field schema: a `"type"` of string, integer, number or
/// boolean, and no reference, alternatives or enumeration.
pub open spec fn plain_scalar(fs: Json) -> bool {
    &&& json_get(fs, "$ref"@) is None
    &&& json_get(fs, "anyOf"@) is None
    &&& json_get(fs, "oneOf"@) is None
    &&& json_get(fs, "enum"@) is None
    &&& get_str(fs, "type"@) matches Some(t) && (t == "string"@ || t == "integer"@ || t == "number"@ || t == "boolean"@)
}

/// The node of a plain scalar field holds the field's value.
/// The plain node of a scalar type is a leaf holding the value.
proof fn lemma_plain_leaf(key: Seq<char>, fs: Json, fv: Json, defs: Entries, depth: usize, descr: Option<Seq<char>>)
    requires
        plain_scalar(fs),
    ensures
        crate::node::plain_node(key, fs, fv, defs, depth, descr).key == key,
        crate::node::plain_node(key, fs, fv, defs, depth, descr).value == fv,
        is_scalar_kind(crate::node::plain_node(key, fs, fv, defs, depth, descr).kind),
{
    let t = get_str(fs, "type"@)->Some_0;
    assert(crate::node::type_name_of(fs) == t) by {
        reveal(crate::node::type_name_of);
    }
}

/// A plain scalar schema is built as a plain node.
proof fn lemma_built_is_plain(key: Seq<char>, fs: Json, fv: Json, defs: Entries, depth: usize)
    requires
        plain_scalar(fs),
    ensures
        built_node(key, fs, fv, defs, depth) == crate::node::plain_node(
            key,
            fs,
            fv,
            defs,
            depth,
            get_str(fs, "description"@),
        ),
{
    assert(crate::node::resolved(fs, defs) == fs) by {
        reveal(crate::node::resolved);
    }
    let descr = get_str(fs, "description"@);
    assert(get_array(fs, "anyOf"@) is None);
    assert(get_array(fs, "type"@) is None);
    assert(crate::node::enum_node(key, fs, fv, defs, depth, descr) is None) by {
        reveal(crate::node::variant_infos_of);
    }
    let t = get_str(fs, "type"@)->Some_0;
    assert(t != "array"@) by {
        reveal_strlit("array");
        reveal_strlit("string");
        reveal_strlit("integer");
        reveal_strlit("number");
        reveal_strlit("boolean");
        assert("array"@.len() == 5);
        assert("string"@.len() == 6);
        assert("integer"@.len() == 7);
        assert("number"@.len() == 6);
        assert("boolean"@.len() == 7);
        assert("number"@[0] != "array"@[0]);
    }
    assert(crate::node::checkbox_node(key, fs, fv, defs, depth, descr) is None) by {
        reveal(crate::node::checkbox_node);
    }
}

/// The node of a plain scalar field holds the field's value.
pub proof fn lemma_built_plain_node(key: Seq<char>, fs: Json, fv: Json, defs: Entries, depth: usize)
    requires
        plain_scalar(fs),
    ensures
        built_node(key, fs, fv, defs, depth).key == key,
        node_json(built_node(key, fs, fv, defs, depth)) == fv,
{
    lemma_built_is_plain(key, fs, fv, defs, depth);
    lemma_plain_leaf(key, fs, fv, defs, depth, get_str(fs, "description"@));
}

/// The nodes built for `keys`: each with a key of `keys` and the value of
/// that field, and one for each key that names a property.
#[verifier::rlimit(30)]
pub proof fn lemma_built_fields_plain(
    keys: Seq<Seq<char>>,
    props: Entries,
    defs: Entries,
    vo: Option<Entries>,
    depth: usize,
    k: Seq<char>,
)
    requires
        forall|i: int| 0 <= i < props.len() ==> plain_scalar(#[trigger] props[i].1),
    ensures
        forall|j: int|
            0 <= j < built_fields(keys, props, defs, vo, depth).len() && (#[trigger] built_fields(keys, props, defs, vo, depth)[j]).key
                == k ==> node_json(built_fields(keys, props, defs, vo, depth)[j]) == field_value(vo, k),
        keys.contains(k) && obj_has(props, k) ==> exists|j: int|
            0 <= j < built_fields(keys, props, defs, vo, depth).len() && (#[trigger] built_fields(
                keys,
                props,
                defs,
                vo,
                depth,
            )[j]).key == k,
    decreases keys.len(),
{
    if keys.len() > 0 {
        let p = built_fields(keys.drop_last(), props, defs, vo, depth);
        let kl = keys.last();
        lemma_built_fields_plain(keys.drop_last(), props, defs, vo, depth, k);
        lemma_first_index_spec(props, kl);
        let b = built_fields(keys, props, defs, vo, depth);
        match obj_get(props, kl) {
            Some(fs) => {
                let i = first_index(props, kl)->Some_0;
                assert(plain_scalar(props[i].1));
                lemma_built_plain_node(kl, fs, field_value(vo, kl), defs, depth);
                assert(b == p.push(built_node(kl, fs, field_value(vo, kl), defs, depth)));
                assert forall|j: int| 0 <= j < b.len() && (#[trigger] b[j]).key == k implies node_json(b[j])
                    == field_value(vo, k) by {
                    if j < p.len() {
                        assert(b[j] == p[j]);
                    }
                }
                if keys.contains(k) && obj_has(props, k) {
                    if kl == k {
                        assert(b[p.len() as int].key == k);
                    } else {
                        let x = choose|x: int| 0 <= x < keys.len() && keys[x] == k;
                        assert(keys.drop_last()[x] == k);
                        let j = choose|j: int| 0 <= j < p.len() && (#[trigger] p[j]).key == k;
                        assert(b[j] == p[j]);
                    }
                }
            },
            None => {
                if keys.contains(k) && obj_has(props, k) {
                    let x = choose|x: int| 0 <= x < keys.len() && keys[x] == k;
                    if x == keys.len() - 1 {
                        assert(props[choose|i: int| 0 <= i < props.len() && (#[trigger] props[i]).0 == k].0 == k);
                    } else {
                        assert(keys.drop_last()[x] == k);
                    }
                }
            },
        }
    }
}

pub proof fn lemma_add_missing_contains(acc: Seq<Seq<char>>, ks: Seq<Seq<char>>, x: Seq<char>)
    requires
        ks.contains(x),
    ensures
        add_missing(acc, ks).contains(x),
    decreases ks.len(),
{
    let p = add_missing(acc, ks.drop_last());
    if ks.last() == x {
        if !p.contains(x) {
            assert(p.push(x)[p.len() as int] == x);
        }
    } else {
        let i = choose|i: int| 0 <= i < ks.len() && ks[i] == x;
        assert(ks.drop_last()[i] == x);
        lemma_add_missing_contains(acc, ks.drop_last(), x);
        if !p.contains(ks.last()) {
            let j = choose|j: int| 0 <= j < p.len() && p[j] == x;
            assert(p.push(ks.last())[j] == x);
        }
    }
}

/// A configuration whose properties are all plain scalar fields reads
/// back from a freshly built tree: each property holds the config's value
/// of that field, or null when the config lacks it.
pub proof fn law_plain_fields_read_back(root: Json, value: Json, k: Seq<char>)
    requires
        get_object(root, "properties"@) matches Some(props) && (forall|i: int|
            0 <= i < props.len() ==> plain_scalar(#[trigger] props[i].1)) && obj_has(props, k),
    ensures
        json_at(nodes_json(built_tree(root, value)), seq![k]) == Some(field_value(json_as_object(value), k)),
{
    let props = get_object(root, "properties"@)->Some_0;
    let defs = match get_object(root, "$defs"@) {
        Some(d) => d,
        None => Seq::empty(),
    };
    let vo = json_as_object(value);
    reveal(crate::node::ordered_keys);
    let keys = crate::node::ordered_keys(props, root);
    let i = choose|i: int| 0 <= i < props.len() && (#[trigger] props[i]).0 == k;
    assert(crate::node::entry_keys(props)[i] == k);
    lemma_add_missing_contains(
        match get_array(root, "required"@) {
            Some(a) => crate::node::present_only(crate::node::strings_of(a), props),
            None => Seq::empty(),
        },
        crate::node::entry_keys(props),
        k,
    );
    lemma_built_fields_plain(keys, props, defs, vo, 0, k);
    let t = built_tree(root, value);
    assert(t == built_fields(keys, props, defs, vo, 0));
    lemma_entries_of_get(t, k, field_value(vo, k));
    assert(json_at(nodes_json(t), seq![k]) == json_at(field_value(vo, k), seq![k].drop_first()));
}

// ---------------------------------------------------------------------
// Checkboxes
// ---------------------------------------------------------------------

/// An update that keeps a node's key and children leaves the nodes below
/// that node as they are.
#[verifier::spinoff_prover]
#[verifier::rlimit(30)]
pub proof fn lemma_update_below(
    t: Seq<NodeView>,
    parts: Seq<Seq<char>>,
    f: spec_fn(NodeView) -> NodeView,
    rest: Seq<Seq<char>>,
)
    requires
        forall|n: NodeView| (#[trigger] f(n)).key == n.key && f(n).children == n.children,
        rest.len() > 0,
    ensures
        node_at(update_at(t, parts, f), parts + rest) == node_at(t, parts + rest),
    decreases parts.len(),
{
    if parts.len() == 0 {
        assert(parts + rest =~= rest);
    } else {
        lemma_key_index_spec(t, parts[0]);
        lemma_update_keys(t, parts, f);
        let u = update_at(t, parts, f);
        lemma_same_keys_index(t, u, parts[0]);
        assert((parts + rest)[0] == parts[0]);
        match key_index(t, parts[0]) {
            None => {},
            Some(i) => {
                if parts.len() == 1 {
                    assert((parts + rest).drop_first() =~= rest);
                } else {
                    assert((parts + rest).drop_first() =~= parts.drop_first() + rest);
                    lemma_update_below(t[i].children, parts.drop_first(), f, rest);
                }
            },
        }
    }
}

/// No dot comes after the last dot.
pub proof fn lemma_last_dot_is_last(p: Seq<char>)
    ensures
        last_dot(p) matches Some(d) ==> 0 <= d < p.len() && p[d] == '.' && !p.skip(d + 1).contains('.'),
        last_dot(p) is None ==> !p.contains('.'),
    decreases p.len(),
{
    if p.len() > 0 {
        lemma_last_dot_is_last(p.drop_last());
        if p.last() != '.' {
            if last_dot(p) is Some {
                let d = last_dot(p)->Some_0;
                assert forall|j: int| 0 <= j < p.skip(d + 1).len() implies #[trigger] p.skip(d + 1)[j] != '.' by {
                    if d + 1 + j < p.len() - 1 {
                        assert(p.skip(d + 1)[j] == p.drop_last().skip(d + 1)[j]);
                    } else {
                        assert(p.skip(d + 1)[j] == p.last());
                    }
                }
            } else {
                assert forall|j: int| 0 <= j < p.len() implies #[trigger] p[j] != '.' by {
                    if j < p.len() - 1 {
                        assert(p[j] == p.drop_last()[j]);
                    }
                }
            }
        } else {
            assert(p.skip(p.len() as int) =~= Seq::<char>::empty());
        }
    }
}

/// Toggling a checkbox item flips it, and the value of its checkbox list
/// then lists the checked items (the tree being well keyed).
#[verifier::rlimit(60)]
pub proof fn law_toggle_checkbox_read_back(s: TreeState, n: TreeState)
    requires
        well_keyed(s.tree()),
        s.selected_entry() matches Some(e) && e.0.kind is CheckboxItem && last_dot(e.1) is Some,
        s.toggles_checkbox(n),
    ensures
        ({
            let e = s.selected_entry()->Some_0;
            let d = last_dot(e.1)->Some_0;
            &&& node_at(n.tree(), split_dots(e.1)) == Some(
                (with_checked(!e.0.kind->CheckboxItem_checked))(e.0),
            )
            &&& node_at(n.tree(), split_dots(e.1.take(d))) matches Some(g) ==> (g.kind is Checkboxes ==> g.value
                == Json::Array(checked_names(g.children)))
        }),
{
    let e = s.selected_entry()->Some_0;
    let c = e.0.kind->CheckboxItem_checked;
    let d = last_dot(e.1)->Some_0;
    let q = split_dots(e.1);
    let parent = e.1.take(d);
    let b = e.1.skip(d + 1);
    lemma_last_dot_is_last(e.1);
    assert(e.1 =~= parent + seq!['.'] + b);
    crate::text::lemma_split_append(parent, b);
    assert(q == split_dots(parent) + seq![b]);
    lemma_selected_node_at(s);
    let m1 = changed_at(s.tree(), e.1, with_checked(!c));
    assert(e.0.kind == KindView::CheckboxItem { checked: c });
    assert(n.tree() == update_at(m1, split_dots(parent), with_checked_list()));
    law_update_read_back(s.tree(), q, with_checked(!c));
    assert(node_at(m1, q) == Some((with_checked(!c))(e.0)));
    lemma_update_below(m1, split_dots(parent), with_checked_list(), seq![b]);
    assert(node_at(n.tree(), q) == node_at(m1, q));
    law_update_read_back(m1, split_dots(parent), with_checked_list());
}

// ---------------------------------------------------------------------
// Radio groups
// ---------------------------------------------------------------------

/// After a variant is chosen, a radio item of the group is selected
/// exactly when its key is the chosen name.
pub proof fn law_radio_choice_is_exclusive(g: NodeView, name: Seq<char>, defs: Entries, k: int)
    requires
        0 <= k < g.children.len(),
        g.children[k].kind is RadioItem,
    ensures
        (with_radio_selected(name, defs))(g).children[k].kind == (KindView::RadioItem {
            selected: g.children[k].key == name,
            is_struct: g.children[k].kind->RadioItem_is_struct,
        }),
        (with_radio_selected(name, defs))(g).children[k].key == g.children[k].key,
{
    let ch = radio_children(g.children, name, defs, g.depth);
    assert(ch[k] == radio_child(g.children[k], name, defs, g.depth));
}

/// Choosing an unselected radio item changes its group (the node at the
/// path before the item's last dot) as `with_radio_selected` says, and
/// expands the chosen item's path.
pub proof fn law_select_radio_read_back(s: TreeState, n: TreeState, changed: bool)
    requires
        s.selected_entry() matches Some(e) && e.0.kind matches KindView::RadioItem { selected: false, .. }
            && last_dot(e.1) is Some,
        s.selects_radio(n, changed),
    ensures
        changed,
        ({
            let e = s.selected_entry()->Some_0;
            let parent = e.1.take(last_dot(e.1)->Some_0);
            &&& node_at(n.tree(), split_dots(parent)) == match node_at(s.tree(), split_dots(parent)) {
                Some(g) => Some((with_radio_selected(e.0.key, s.defs_view()))(g)),
                None => None,
            }
            &&& n.expanded_set().contains(parent + seq!['.'] + e.0.key)
        }),
{
    let e = s.selected_entry()->Some_0;
    let parent = e.1.take(last_dot(e.1)->Some_0);
    law_update_read_back(s.tree(), split_dots(parent), with_radio_selected(e.0.key, s.defs_view()));
}

// ---------------------------------------------------------------------
// Scrolling
// ---------------------------------------------------------------------

/// After scrolling for a frame of `height` rows, the selected row is
/// among the rows shown.
pub proof fn law_scroll_shows_selection(selected: usize, scroll: usize, height: int)
    requires
        height > 0,
    ensures
        scrolled(selected, scroll, height) <= selected < scrolled(selected, scroll, height) + height,
{
}

/// In edit mode, a backspace right after typing a character gives back
/// the buffer and cursor from before the typing, and nothing else moved.
pub proof fn law_backspace_after_typing(s: TreeState, m: TreeState, n: TreeState, c: char)
    requires
        s.wf(),
        s.types_char(m, c),
        m.backspaces(n),
    ensures
        edit_view(n.edit_mode) == edit_view(s.edit_mode),
        n.same_but_edit(&s),
{
    match edit_view(s.edit_mode) {
        Some(e) => {
            crate::buffer::law_backspace_undoes_typing(e.0, e.1, c);
        },
        None => {},
    }
}

/// A key press whose result reports no changed value (ignored, or
/// consumed with `value_changed` false) leaves the tree, and so the
/// configuration value, as it was.
pub proof fn law_unchanged_result_keeps_value(
    s: TreeState,
    n: TreeState,
    key: KeyPress,
    float_reading: Option<Seq<char>>,
    r: EventResult,
)
    requires
        match s.edit_mode {
            crate::state::EditMode::Editing { .. } => s.handles_editing_key(n, key, float_reading, r),
            crate::state::EditMode::Normal => s.handles_normal_key(n, key, r),
        },
        r == EventResult::Ignored || r == (EventResult::Consumed { value_changed: false }),
    ensures
        n.tree() == s.tree(),
        nodes_json(n.tree()) == nodes_json(s.tree()),
{
}

/// A schema that refers (`$ref`) to a definition without a reference
/// of its own builds the same node as that definition.
pub proof fn law_ref_builds_as_definition(
    key: Seq<char>,
    schema: Json,
    r: Seq<char>,
    t: Json,
    value: Json,
    defs: Entries,
    depth: usize,
)
    requires
        json_get(schema, "$ref"@) == Some(Json::Str(r)),
        obj_get(defs, crate::node::strip_defs_prefix(r)) == Some(t),
        !(json_get(t, "$ref"@) matches Some(Json::Str(_))),
    ensures
        built_node(key, schema, value, defs, depth) == built_node(key, t, value, defs, depth),
{
    reveal(crate::node::resolved);
    assert(crate::node::resolved(schema, defs) == t);
    assert(crate::node::resolved(t, defs) == t);
}

/// The radio items of a list of variants: one per variant, in order.
pub proof fn lemma_radio_items(
    infos: crate::node::Infos,
    cur_name: Seq<char>,
    cur_inner: Option<Json>,
    defs: Entries,
    depth: usize,
)
    ensures
        crate::node::radio_items(infos, cur_name, cur_inner, defs, depth).len() == infos.len(),
        forall|i: int|
            0 <= i < infos.len() ==> #[trigger] crate::node::radio_items(infos, cur_name, cur_inner, defs, depth)[i]
                == crate::node::radio_item(infos[i], cur_name, cur_inner, defs, depth),
    decreases infos.len(),
{
    if infos.len() > 0 {
        lemma_radio_items(infos.drop_last(), cur_name, cur_inner, defs, depth);
        let d = infos.drop_last();
        assert forall|i: int| 0 <= i < infos.len() implies #[trigger] crate::node::radio_items(
            infos,
            cur_name,
            cur_inner,
            defs,
            depth,
        )[i] == crate::node::radio_item(infos[i], cur_name, cur_inner, defs, depth) by {
            if i < infos.len() - 1 {
                assert(d[i] == infos[i]);
            }
        }
    }
}

/// A radio group built from an enum schema has one item per variant, in
/// order; an item is selected, and holds `true`, exactly when its name is
/// the chosen variant: the one the value names, or else the first. At
/// least one item is selected, and with distinct variant names exactly
/// one.
pub proof fn law_radio_group_selects_named_variant(
    key: Seq<char>,
    r: Json,
    value: Json,
    defs: Entries,
    depth: usize,
    descr: Option<Seq<char>>,
)
    requires
        crate::node::enum_node(key, r, value, defs, depth, descr) is Some,
    ensures
        ({
            let n = crate::node::enum_node(key, r, value, defs, depth, descr)->Some_0;
            let infos = crate::node::variant_infos_of(r, defs)->Some_0;
            let cur = crate::node::current_variant(value).0;
            let chosen = if crate::node::names_variant(infos, cur) { cur } else { infos[0].0 };
            &&& n.kind is RadioGroup
            &&& n.value == value
            &&& infos.len() > 0
            &&& n.children.len() == infos.len()
            &&& forall|i: int|
                0 <= i < infos.len() ==> {
                    &&& (#[trigger] n.children[i]).key == infos[i].0
                    &&& n.children[i].kind matches KindView::RadioItem { selected, .. } && selected == (infos[i].0
                        == chosen)
                    &&& n.children[i].value == Json::Bool(infos[i].0 == chosen)
                }
            &&& exists|i: int| 0 <= i < infos.len() && crate::value::is_selected_item(#[trigger] n.children[i])
            &&& (forall|i: int, j: int| 0 <= i < j < infos.len() ==> (#[trigger] infos[i]).0 != (#[trigger] infos[j]).0)
                ==> forall|i: int, j: int|
                0 <= i < infos.len() && 0 <= j < infos.len() && crate::value::is_selected_item(#[trigger] n.children[i])
                    && crate::value::is_selected_item(#[trigger] n.children[j]) ==> i == j
        }),
{
    reveal(crate::node::variant_infos_of);
    let n = crate::node::enum_node(key, r, value, defs, depth, descr)->Some_0;
    let infos = crate::node::variant_infos_of(r, defs)->Some_0;
    let cv = crate::node::chosen_variant(infos, value);
    assert(infos.len() > 0);
    lemma_radio_items(infos, cv.0, cv.1, defs, depth);
    assert(n.children == crate::node::radio_items(infos, cv.0, cv.1, defs, depth));
    if crate::node::names_variant(infos, crate::node::current_variant(value).0) {
        let i = choose|i: int| 0 <= i < infos.len() && (#[trigger] infos[i]).0 == cv.0;
        assert(n.children[i] == crate::node::radio_item(infos[i], cv.0, cv.1, defs, depth));
        assert(crate::value::is_selected_item(n.children[i]));
    } else {
        assert(n.children[0] == crate::node::radio_item(infos[0], cv.0, cv.1, defs, depth));
        assert(crate::value::is_selected_item(n.children[0]));
    }
    if forall|i: int, j: int| 0 <= i < j < infos.len() ==> (#[trigger] infos[i]).0 != (#[trigger] infos[j]).0 {
        assert forall|i: int, j: int|
            0 <= i < infos.len() && 0 <= j < infos.len() && crate::value::is_selected_item(#[trigger] n.children[i])
                && crate::value::is_selected_item(#[trigger] n.children[j]) implies i == j by {
            assert(n.children[i] == crate::node::radio_item(infos[i], cv.0, cv.1, defs, depth));
            assert(n.children[j] == crate::node::radio_item(infos[j], cv.0, cv.1, defs, depth));
            if i < j {
                assert(infos[i].0 != infos[j].0);
            } else if j < i {
                assert(infos[j].0 != infos[i].0);
            }
        }
    }
}

/// The object made of a node list lists its keys once each, in key
/// order, as a JSON map ordered by key does.
pub proof fn law_object_keys_in_order(t: Seq<NodeView>)
    ensures
        crate::json::keys_ordered(entries_of(t)),
    decreases t.len(),
{
    if t.len() > 0 {
        law_object_keys_in_order(t.drop_last());
        crate::json::lemma_obj_insert_ordered(entries_of(t.drop_last()), t.last().key, node_json(t.last()));
    }
}

// ---------------------------------------------------------------------
// Objects in key order
// ---------------------------------------------------------------------

/// Two keys are never each before the other.
pub proof fn lemma_key_less_asymmetric(a: Seq<char>, b: Seq<char>)
    ensures
        !(crate::json::key_less(a, b) && crate::json::key_less(b, a)),
{
    if crate::json::key_less(a, b) && crate::json::key_less(b, a) {
        crate::json::lemma_key_less_transitive(a, b, a);
        crate::json::lemma_key_less_irreflexive(a);
    }
}

/// In entries in key order, a key is found at the one entry that has it.
pub proof fn lemma_ordered_get(e: Seq<(Seq<char>, Json)>, k: Seq<char>)
    requires
        crate::json::keys_ordered(e),
    ensures
        forall|i: int| 0 <= i < e.len() && (#[trigger] e[i]).0 == k ==> obj_get(e, k) == Some(e[i].1),
{
    assert forall|i: int| 0 <= i < e.len() && (#[trigger] e[i]).0 == k implies obj_get(e, k) == Some(e[i].1) by {
        assert forall|j: int| 0 <= j < i implies (#[trigger] e[j]).0 != k by {
            assert(crate::json::key_less(e[j].0, e[i].0));
            crate::json::lemma_key_less_irreflexive(k);
        }
        crate::json::lemma_first_index(e, k, i);
    }
}

/// Dropping the first of entries in key order leaves the other keys'
/// values as they were, and the first key without a value.
pub proof fn lemma_ordered_get_tail(e: Seq<(Seq<char>, Json)>, k: Seq<char>)
    requires
        crate::json::keys_ordered(e),
        e.len() > 0,
    ensures
        k != e[0].0 ==> obj_get(e.drop_first(), k) == obj_get(e, k),
        k == e[0].0 ==> obj_get(e.drop_first(), k) is None,
{
    let t = e.drop_first();
    assert(crate::json::keys_ordered(t)) by {
        assert forall|a: int, b: int| 0 <= a < b < t.len() implies crate::json::key_less(
            (#[trigger] t[a]).0,
            (#[trigger] t[b]).0,
        ) by {
            assert(t[a] == e[a + 1] && t[b] == e[b + 1]);
        }
    }
    lemma_ordered_get(e, k);
    lemma_ordered_get(t, k);
    lemma_first_index_spec(e, k);
    lemma_first_index_spec(t, k);
    if k == e[0].0 {
        if first_index(t, k) is Some {
            let i = first_index(t, k)->Some_0;
            assert(t[i] == e[i + 1]);
            assert(crate::json::key_less(e[0].0, e[i + 1].0));
            crate::json::lemma_key_less_irreflexive(k);
        }
    } else {
        match first_index(e, k) {
            Some(i) => {
                assert(i > 0);
                assert(t[i - 1] == e[i]);
            },
            None => {
                if first_index(t, k) is Some {
                    let i = first_index(t, k)->Some_0;
                    assert(t[i] == e[i + 1]);
                }
            },
        }
    }
}

/// Entries in key order that give every key the same value are the same.
pub proof fn lemma_ordered_equal(e: Seq<(Seq<char>, Json)>, f: Seq<(Seq<char>, Json)>)
    requires
        crate::json::keys_ordered(e),
        crate::json::keys_ordered(f),
        forall|k: Seq<char>| #[trigger] obj_get(e, k) == obj_get(f, k),
    ensures
        e == f,
    decreases e.len(),
{
    if e.len() == 0 || f.len() == 0 {
        if e.len() > 0 {
            lemma_ordered_get(e, e[0].0);
            assert(obj_get(e, e[0].0) == obj_get(f, e[0].0));
        } else if f.len() > 0 {
            lemma_ordered_get(f, f[0].0);
            assert(obj_get(e, f[0].0) == obj_get(f, f[0].0));
        }
        assert(e =~= f);
    } else {
        let k0 = e[0].0;
        let l0 = f[0].0;
        lemma_ordered_get(e, k0);
        lemma_ordered_get(f, k0);
        lemma_ordered_get(e, l0);
        lemma_ordered_get(f, l0);
        lemma_first_index_spec(f, k0);
        lemma_first_index_spec(e, l0);
        assert(obj_get(e, k0) == obj_get(f, k0));
        assert(obj_get(e, l0) == obj_get(f, l0));
        let j = first_index(f, k0)->Some_0;
        let i = first_index(e, l0)->Some_0;
        if j > 0 {
            assert(crate::json::key_less(f[0].0, f[j].0));
            if i > 0 {
                assert(crate::json::key_less(e[0].0, e[i].0));
                lemma_key_less_asymmetric(k0, l0);
            } else {
                crate::json::lemma_key_less_irreflexive(k0);
            }
        }
        assert(j == 0);
        assert(e[0] == f[0]);
        assert forall|k: Seq<char>| #[trigger] obj_get(e.drop_first(), k) == obj_get(f.drop_first(), k) by {
            lemma_ordered_get_tail(e, k);
            lemma_ordered_get_tail(f, k);
            assert(obj_get(e, k) == obj_get(f, k));
        }
        assert(crate::json::keys_ordered(e.drop_first())) by {
            lemma_ordered_get_tail(e, k0);
            assert forall|a: int, b: int| 0 <= a < b < e.drop_first().len() implies crate::json::key_less(
                (#[trigger] e.drop_first()[a]).0,
                (#[trigger] e.drop_first()[b]).0,
            ) by {
                assert(e.drop_first()[a] == e[a + 1] && e.drop_first()[b] == e[b + 1]);
            }
        }
        assert(crate::json::keys_ordered(f.drop_first())) by {
            assert forall|a: int, b: int| 0 <= a < b < f.drop_first().len() implies crate::json::key_less(
                (#[trigger] f.drop_first()[a]).0,
                (#[trigger] f.drop_first()[b]).0,
            ) by {
                assert(f.drop_first()[a] == f[a + 1] && f.drop_first()[b] == f[b + 1]);
            }
        }
        lemma_ordered_equal(e.drop_first(), f.drop_first());
        assert(e =~= seq![e[0]] + e.drop_first());
        assert(f =~= seq![f[0]] + f.drop_first());
    }
}

/// Every key of the object of a node list is the key of one of the nodes.
pub proof fn lemma_entries_of_keys(t: Seq<NodeView>, k: Seq<char>)
    requires
        forall|j: int| 0 <= j < t.len() ==> (#[trigger] t[j]).key != k,
    ensures
        obj_get(entries_of(t), k) is None,
    decreases t.len(),
{
    if t.len() > 0 {
        let d = t.drop_last();
        assert forall|j: int| 0 <= j < d.len() implies (#[trigger] d[j]).key != k by {
            assert(d[j] == t[j]);
        }
        lemma_entries_of_keys(d, k);
        assert(t[t.len() - 1].key != k);
        lemma_obj_insert_other(entries_of(d), t.last().key, node_json(t.last()), k);
    }
}

/// Each node built for `keys` has the key of a property.
pub proof fn lemma_built_fields_keys(
    keys: Seq<Seq<char>>,
    props: Entries,
    defs: Entries,
    vo: Option<Entries>,
    depth: usize,
)
    requires
        forall|i: int| 0 <= i < props.len() ==> plain_scalar(#[trigger] props[i].1),
    ensures
        forall|j: int|
            0 <= j < built_fields(keys, props, defs, vo, depth).len() ==> obj_has(
                props,
                (#[trigger] built_fields(keys, props, defs, vo, depth)[j]).key,
            ),
    decreases keys.len(),
{
    if keys.len() > 0 {
        let p = built_fields(keys.drop_last(), props, defs, vo, depth);
        let kl = keys.last();
        lemma_built_fields_keys(keys.drop_last(), props, defs, vo, depth);
        lemma_first_index_spec(props, kl);
        let b = built_fields(keys, props, defs, vo, depth);
        match obj_get(props, kl) {
            Some(fs) => {
                let i = first_index(props, kl)->Some_0;
                assert(plain_scalar(props[i].1));
                lemma_built_plain_node(kl, fs, field_value(vo, kl), defs, depth);
                assert forall|j: int| 0 <= j < b.len() implies obj_has(props, (#[trigger] b[j]).key) by {
                    if j < p.len() {
                        assert(b[j] == p[j]);
                    } else {
                        assert(props[i].0 == kl);
                    }
                }
            },
            None => {},
        }
    }
}

/// A configuration whose properties are all plain scalar fields, given
/// as an object in key order with exactly those properties, is read back
/// whole from a freshly built tree.
pub proof fn law_plain_config_round_trip(root: Json, value: Json)
    requires
        get_object(root, "properties"@) matches Some(props) && (forall|i: int|
            0 <= i < props.len() ==> plain_scalar(#[trigger] props[i].1)),
        value matches Json::Object(ve) && crate::json::keys_ordered(ve),
        forall|k: Seq<char>|
            #[trigger] obj_has(get_object(root, "properties"@)->Some_0, k) == json_get(value, k) is Some,
    ensures
        nodes_json(built_tree(root, value)) == value,
{
    let props = get_object(root, "properties"@)->Some_0;
    let ve = json_as_object(value)->Some_0;
    let defs = match get_object(root, "$defs"@) {
        Some(d) => d,
        None => Seq::empty(),
    };
    let vo = json_as_object(value);
    reveal(crate::node::ordered_keys);
    let keys = crate::node::ordered_keys(props, root);
    let t = built_tree(root, value);
    assert(t == built_fields(keys, props, defs, vo, 0));
    let e = entries_of(t);
    law_object_keys_in_order(t);
    lemma_built_fields_keys(keys, props, defs, vo, 0);
    assert forall|k: Seq<char>| #[trigger] obj_get(e, k) == obj_get(ve, k) by {
        if obj_has(props, k) {
            law_plain_fields_read_back(root, value, k);
            assert(json_at(nodes_json(t), seq![k]) == Some(field_value(vo, k)));
            assert(obj_get(ve, k) is Some);
            if obj_get(e, k) is None {
                assert(json_at(nodes_json(t), seq![k]) is None);
            }
            assert(json_at(obj_get(e, k)->Some_0, seq![k].drop_first()) == Some(obj_get(e, k)->Some_0));
        } else {
            assert forall|j: int| 0 <= j < t.len() implies (#[trigger] t[j]).key != k by {
                assert(obj_has(props, t[j].key));
            }
            lemma_entries_of_keys(t, k);
        }
    }
    lemma_ordered_equal(e, ve);
}

// ---------------------------------------------------------------------
// Toggling a checkbox twice
// ---------------------------------------------------------------------

/// Flipping a checkbox item below `parent` and rebuilding the list's
/// value, twice, is the same as only rebuilding the list's value (the
/// item holding its flag as its value).
pub proof fn lemma_checkbox_twice_tree(t: Seq<NodeView>, parent: Seq<Seq<char>>, b: Seq<char>, c: bool)
    requires
        parent.len() > 0,
        node_at(t, parent + seq![b]) matches Some(item) && item.kind == (KindView::CheckboxItem { checked: c })
            && item.value == Json::Bool(c),
    ensures
        update_at(
            update_at(
                update_at(update_at(t, parent + seq![b], with_checked(!c)), parent, with_checked_list()),
                parent + seq![b],
                with_checked(c),
            ),
            parent,
            with_checked_list(),
        ) == update_at(t, parent, with_checked_list()),
    decreases parent.len(),
{
    let q = parent + seq![b];
    let c1 = with_checked(!c);
    let c2 = with_checked(c);
    let l = with_checked_list();
    let t1 = update_at(t, q, c1);
    let t2 = update_at(t1, parent, l);
    let t3 = update_at(t2, q, c2);
    let t4 = update_at(t3, parent, l);
    assert(q[0] == parent[0]);
    lemma_key_index_spec(t, parent[0]);
    lemma_update_keys(t, q, c1);
    lemma_update_keys(t1, parent, l);
    lemma_update_keys(t2, q, c2);
    lemma_same_keys_index(t, t1, parent[0]);
    lemma_same_keys_index(t, t2, parent[0]);
    lemma_same_keys_index(t, t3, parent[0]);
    let i = key_index(t, parent[0])->Some_0;
    let x = t[i];
    let qr = q.drop_first();
    if parent.len() == 1 {
        assert(qr =~= seq![b]);
        let item = node_at(x.children, qr)->Some_0;
        let x1 = NodeView { children: update_at(x.children, qr, c1), ..x };
        assert(t1 == t.update(i, x1));
        assert(t2 == t.update(i, l(x1)));
        let x3 = NodeView { children: update_at(l(x1).children, qr, c2), ..l(x1) };
        assert(t3 == t.update(i, x3));
        assert(t4 == t.update(i, l(x3)));
        lemma_update_twice(x.children, qr, c1, c2);
        let g = |n: NodeView| c2(c1(n));
        assert(g(item) == item);
        lemma_update_unchanged(x.children, qr, g);
        assert(x3.children == x.children);
        assert(l(x3) == l(x));
        assert(t4 =~= update_at(t, parent, l));
    } else {
        let pr = parent.drop_first();
        assert(qr =~= pr + seq![b]);
        lemma_checkbox_twice_tree(x.children, pr, b, c);
        assert(t4 =~= update_at(t, parent, l));
    }
}

/// Toggling a checkbox item twice gives back the tree it started from,
/// but for the value of its checkbox list, which is rebuilt from the
/// items (the tree being well keyed, the item holding its flag as its
/// value, and the item lying in a list).
#[verifier::rlimit(60)]
pub proof fn law_toggle_checkbox_twice(s: TreeState, m: TreeState, n: TreeState)
    requires
        well_keyed(s.tree()),
        s.selected_entry() matches Some(e) && e.0.kind is CheckboxItem && e.0.value == Json::Bool(
            e.0.kind->CheckboxItem_checked,
        ) && last_dot(e.1) is Some,
        s.toggles_checkbox(m),
        m.toggles_checkbox(n),
    ensures
        n.tree() == changed_at(
            s.tree(),
            s.selected_entry()->Some_0.1.take(last_dot(s.selected_entry()->Some_0.1)->Some_0),
            with_checked_list(),
        ),
        n.expanded@ == s.expanded@,
        n.edit_mode == s.edit_mode,
        n.selected == s.selected,
{
    let e = s.selected_entry()->Some_0;
    let c = e.0.kind->CheckboxItem_checked;
    let d = last_dot(e.1)->Some_0;
    let q = split_dots(e.1);
    let parent = e.1.take(d);
    let b = e.1.skip(d + 1);
    lemma_last_dot_is_last(e.1);
    assert(e.1 =~= parent + seq!['.'] + b);
    crate::text::lemma_split_append(parent, b);
    assert(q == split_dots(parent) + seq![b]);
    let pp = split_dots(parent);
    let t0 = s.tree();
    let t1 = changed_at(t0, e.1, with_checked(!c));
    let t2 = update_at(t1, pp, with_checked_list());
    assert(e.0.kind == KindView::CheckboxItem { checked: c });
    assert(m.tree() == t2);
    law_toggle_checkbox_read_back(s, m);
    lemma_update_same_shape(t0, q, with_checked(!c));
    lemma_update_same_shape(t1, pp, with_checked_list());
    lemma_same_shape_well_keyed(t0, t1);
    lemma_same_shape_well_keyed(t1, t2);
    lemma_same_shape_vis(t0, t1, Seq::empty(), s.expanded_set(), s.shows());
    lemma_same_shape_vis(t1, t2, Seq::empty(), s.expanded_set(), s.shows());
    assert(m.expanded_set() == s.expanded_set());
    assert(m.shows() == s.shows());
    assert(m.visible_list().len() == s.visible_list().len());
    assert(m.visible_list()[m.selected as int].1 == e.1);
    lemma_selected_node_at(m);
    let em = m.selected_entry()->Some_0;
    assert(em.1 == e.1);
    assert(em.0 == (with_checked(!c))(e.0));
    assert(em.0.kind == KindView::CheckboxItem { checked: !c });
    lemma_selected_node_at(s);
    assert(n.tree() == update_at(update_at(t2, q, with_checked(c)), pp, with_checked_list()));
    crate::text::lemma_split_dots_nonempty(parent);
    assert(node_at(t0, pp + seq![b]) == Some(e.0));
    lemma_checkbox_twice_tree(t0, pp, b, c);
}

// ---------------------------------------------------------------------
// Changes that keep the configuration value
// ---------------------------------------------------------------------

/// Two nodes give the same JSON, as a field, as a single value and as
/// the parent of their children, and have the same key, kind and number
/// of children.
pub open spec fn json_alike(x: NodeView, y: NodeView) -> bool {
    &&& x.key == y.key
    &&& x.kind == y.kind
    &&& x.children.len() == y.children.len()
    &&& node_json(x) == node_json(y)
    &&& leaf_json(x) == leaf_json(y)
    &&& entries_of(x.children) == entries_of(y.children)
}

pub open spec fn all_alike(a: Seq<NodeView>, b: Seq<NodeView>) -> bool {
    a.len() == b.len() && forall|i: int| 0 <= i < a.len() ==> json_alike(#[trigger] a[i], b[i])
}

/// Lists of alike nodes give the same object, the same checked names and
/// the same first selected item.
pub proof fn lemma_all_alike(a: Seq<NodeView>, b: Seq<NodeView>)
    requires
        all_alike(a, b),
    ensures
        entries_of(a) == entries_of(b),
        checked_names(a) == checked_names(b),
        crate::value::first_selected(a) == crate::value::first_selected(b),
    decreases a.len(),
{
    if a.len() > 0 {
        let da = a.drop_last();
        let db = b.drop_last();
        assert forall|i: int| 0 <= i < da.len() implies json_alike(#[trigger] da[i], db[i]) by {
            assert(da[i] == a[i] && db[i] == b[i]);
        }
        lemma_all_alike(da, db);
        assert(json_alike(a[a.len() - 1], b[b.len() - 1]));
    }
    match crate::value::first_selected(a) {
        Some(k) => {
            crate::value::lemma_first_selected_spec(a);
            assert(json_alike(a[k], b[k]));
            assert forall|j: int| 0 <= j < k implies !crate::value::is_selected_item(#[trigger] b[j]) by {
                assert(json_alike(a[j], b[j]));
                assert(!crate::value::is_selected_item(a[j]));
            }
            crate::value::lemma_first_selected(b, k);
        },
        None => {
            crate::value::lemma_first_selected_spec(a);
            if crate::value::first_selected(b) is Some {
                crate::value::lemma_first_selected_spec(b);
                let k = crate::value::first_selected(b)->Some_0;
                assert(json_alike(a[k], b[k]));
            }
        },
    }
}

/// A radio group whose items are replaced by alike ones has the same
/// value.
proof fn lemma_alike_radio(x: NodeView, cs: Seq<NodeView>)
    requires
        all_alike(x.children, cs),
    ensures
        crate::value::radio_json(x) == crate::value::radio_json(NodeView { children: cs, ..x }),
{
    lemma_all_alike(x.children, cs);
    match crate::value::first_selected(x.children) {
        Some(k) => {
            crate::value::lemma_first_selected_spec(x.children);
            assert(json_alike(x.children[k], cs[k]));
        },
        None => {},
    }
}

/// A node whose children are replaced by alike ones is alike.
#[verifier::spinoff_prover]
#[verifier::rlimit(80)]
pub proof fn lemma_alike_parent(x: NodeView, cs: Seq<NodeView>)
    requires
        all_alike(x.children, cs),
    ensures
        json_alike(x, NodeView { children: cs, ..x }),
{
    let y = NodeView { children: cs, ..x };
    lemma_all_alike(x.children, cs);
    lemma_alike_radio(x, cs);
    assert(leaf_json(x) == leaf_json(y));
    assert(node_json(x) == node_json(y)) by {
        if x.kind is Option && x.children.len() > 0 {
            assert(json_alike(x.children[0], cs[0]));
        }
    }
}

/// An update by a change that keeps nodes alike keeps the list alike.
pub proof fn lemma_update_alike(t: Seq<NodeView>, parts: Seq<Seq<char>>, f: spec_fn(NodeView) -> NodeView)
    requires
        forall|x: NodeView| json_alike(x, #[trigger] f(x)),
    ensures
        all_alike(t, update_at(t, parts, f)),
    decreases parts.len(),
{
    let u = update_at(t, parts, f);
    assert forall|i: int| 0 <= i < t.len() implies json_alike(#[trigger] t[i], t[i]) by {}
    if parts.len() > 0 {
        lemma_key_index_spec(t, parts[0]);
        match key_index(t, parts[0]) {
            None => {},
            Some(i) => {
                if parts.len() == 1 {
                    assert(json_alike(t[i], f(t[i])));
                } else {
                    lemma_update_alike(t[i].children, parts.drop_first(), f);
                    lemma_alike_parent(t[i], update_at(t[i].children, parts.drop_first(), f));
                }
                assert forall|j: int| 0 <= j < t.len() implies json_alike(#[trigger] t[j], u[j]) by {
                    if j != i {
                        assert(u[j] == t[j]);
                    }
                }
            },
        }
    }
}

/// Rebuilding the value of a checkbox list changes no JSON.
pub proof fn lemma_checked_list_alike()
    ensures
        forall|x: NodeView| json_alike(x, #[trigger] (with_checked_list())(x)),
{
    assert forall|x: NodeView| json_alike(x, #[trigger] (with_checked_list())(x)) by {
        let y = (with_checked_list())(x);
        if x.kind is Checkboxes {
            assert(y.children == x.children);
        } else {
            assert(y == x);
        }
    }
}

/// Toggling a checkbox item twice gives back the configuration value it
/// started from (under the conditions of `law_toggle_checkbox_twice`).
pub proof fn law_toggle_checkbox_twice_keeps_value(s: TreeState, m: TreeState, n: TreeState)
    requires
        well_keyed(s.tree()),
        s.selected_entry() matches Some(e) && e.0.kind is CheckboxItem && e.0.value == Json::Bool(
            e.0.kind->CheckboxItem_checked,
        ) && last_dot(e.1) is Some,
        s.toggles_checkbox(m),
        m.toggles_checkbox(n),
    ensures
        nodes_json(n.tree()) == nodes_json(s.tree()),
{
    law_toggle_checkbox_twice(s, m, n);
    let e = s.selected_entry()->Some_0;
    let parent = e.1.take(last_dot(e.1)->Some_0);
    lemma_checked_list_alike();
    lemma_update_alike(s.tree(), split_dots(parent), with_checked_list());
    lemma_all_alike(s.tree(), n.tree());
}

// ---------------------------------------------------------------------
// Changing the node of a visible row
// ---------------------------------------------------------------------

/// Changing the node of visible row `k` (keeping its key) leaves that
/// row in place, showing the changed node, whatever the change does to
/// the node's children, as long as expansion is the same at the rows
/// before it.
pub proof fn lemma_vis_update_row(
    t: Seq<NodeView>,
    prefix: Seq<char>,
    pre: Seq<Seq<char>>,
    e1: Set<Seq<char>>,
    e2: Set<Seq<char>>,
    shows: spec_fn(Seq<char>) -> bool,
    k: int,
    f: spec_fn(NodeView) -> NodeView,
)
    requires
        well_keyed(t),
        prefix_parts(prefix, pre),
        0 <= k < vis(t, prefix, e1, shows).len(),
        forall|n: NodeView| (#[trigger] f(n)).key == n.key,
        forall|j: int| 0 <= j < k ==> e1.contains((#[trigger] vis(t, prefix, e1, shows)[j]).1) == e2.contains(
            vis(t, prefix, e1, shows)[j].1,
        ),
    ensures
        ({
            let row = vis(t, prefix, e1, shows)[k];
            let u = update_at(t, split_dots(row.1).skip(pre.len() as int), f);
            &&& vis(u, prefix, e2, shows).len() > k
            &&& vis(u, prefix, e2, shows)[k] == (f(row.0), row.1)
        }),
    decreases t, 0int,
{
    let r = vis(t, prefix, e1, shows);
    let row = r[k];
    let q = split_dots(row.1).skip(pre.len() as int);
    let u = update_at(t, q, f);
    let d = t.drop_last();
    let a = vis(d, prefix, e1, shows);
    let b = vis_one(t.last(), prefix, e1, shows);
    lemma_well_keyed(t);
    assert(well_keyed(d));
    lemma_vis_node_at(t, prefix, pre, e1, shows, k);
    lemma_key_index_spec(t, q[0]);
    let i = key_index(t, q[0])->Some_0;
    lemma_update_keys(t, q, f);
    if k < a.len() {
        assert(r[k] == a[k]);
        lemma_vis_node_at(d, prefix, pre, e1, shows, k);
        lemma_key_index_spec(d, q[0]);
        let i2 = key_index(d, q[0])->Some_0;
        assert(t[i2] == d[i2]);
        if i != i2 {
            assert(t[i].key == t[i2].key);
        }
        assert(i < d.len());
        assert forall|j: int| 0 <= j < k implies e1.contains((#[trigger] a[j]).1) == e2.contains(a[j].1) by {
            assert(r[j] == a[j]);
        }
        lemma_vis_update_row(d, prefix, pre, e1, e2, shows, k, f);
        lemma_key_index_spec(d, q[0]);
        assert(u.drop_last() =~= update_at(d, q, f));
        assert(u.last() == t.last());
        let a2 = vis(u.drop_last(), prefix, e2, shows);
        assert(vis(u, prefix, e2, shows) == a2 + vis_one(u.last(), prefix, e2, shows));
        assert(vis(u, prefix, e2, shows)[k] == a2[k]);
    } else {
        let kk = k - a.len();
        assert(r[k] == b[kk]);
        lemma_vis_one_node_at(t, prefix, pre, e1, shows, kk);
        let last = t.len() - 1;
        assert(q[0] == t.last().key);
        assert(t[last] == t.last());
        if i != last {
            assert(t[i].key != t[last].key);
        }
        assert(u.drop_last() =~= d);
        assert forall|j: int| 0 <= j < a.len() implies e1.contains((#[trigger] a[j]).1) == e2.contains(a[j].1) by {
            assert(r[j] == a[j]);
        }
        lemma_vis_agree(d, prefix, e1, e2, shows);
        assert forall|j: int| 0 <= j < kk implies e1.contains((#[trigger] b[j]).1) == e2.contains(b[j].1) by {
            assert(r[j + a.len()] == b[j]);
        }
        lemma_vis_one_update_row(t.last(), prefix, pre, e1, e2, shows, kk, f, q);
        assert(vis(u, prefix, e2, shows) == vis(d, prefix, e2, shows) + vis_one(u.last(), prefix, e2, shows));
    }
}

/// The rows of one node (see `lemma_vis_update_row`): `q` leads from the
/// node's list to the node of row `k`, through `n` itself.
pub proof fn lemma_vis_one_update_row(
    n: NodeView,
    prefix: Seq<char>,
    pre: Seq<Seq<char>>,
    e1: Set<Seq<char>>,
    e2: Set<Seq<char>>,
    shows: spec_fn(Seq<char>) -> bool,
    k: int,
    f: spec_fn(NodeView) -> NodeView,
    q: Seq<Seq<char>>,
)
    requires
        well_keyed_node(n),
        prefix_parts(prefix, pre),
        0 <= k < vis_one(n, prefix, e1, shows).len(),
        forall|m: NodeView| (#[trigger] f(m)).key == m.key,
        forall|j: int| 0 <= j < k ==> e1.contains((#[trigger] vis_one(n, prefix, e1, shows)[j]).1) == e2.contains(
            vis_one(n, prefix, e1, shows)[j].1,
        ),
        q == split_dots(vis_one(n, prefix, e1, shows)[k].1).skip(pre.len() as int),
        q.len() > 0,
        q[0] == n.key,
        (k == 0 <==> q.len() == 1),
    ensures
        ({
            let row = vis_one(n, prefix, e1, shows)[k];
            let un = if q.len() == 1 {
                f(n)
            } else {
                NodeView { children: update_at(n.children, q.drop_first(), f), ..n }
            };
            &&& vis_one(un, prefix, e2, shows).len() > k
            &&& vis_one(un, prefix, e2, shows)[k] == (f(row.0), row.1)
        }),
    decreases n, 1int,
{
    let path = crate::text::join_path(prefix, n.key);
    let b = vis_one(n, prefix, e1, shows);
    let row = b[k];
    assert(shows(path));
    assert(b[0] == (n, path));
    if k == 0 {
        assert(f(n).key == n.key);
    } else {
        let c = vis(n.children, path, e1, shows);
        assert(e1.contains(path) && n.children.len() > 0);
        assert(b == seq![(n, path)] + c);
        assert(b[k] == c[k - 1]);
        assert(e1.contains(b[0].1) == e2.contains(b[0].1));
        crate::text::lemma_split_join(prefix, n.key);
        let pp = split_dots(path);
        assert(pp == pre.push(n.key));
        assert(prefix_parts(path, pp)) by {
            assert(path.len() > 0) by {
                if prefix.len() == 0 {
                    assert(path == n.key);
                    crate::text::lemma_split_dots_nonempty(path);
                } else {
                    assert(path.len() == prefix.len() + 1 + n.key.len());
                }
            }
        }
        assert(decreases_to!(n => n.children));
        lemma_vis_node_at(n.children, path, pp, e1, shows, k - 1);
        let parts = split_dots(row.1);
        let q2 = parts.skip(pp.len() as int);
        assert(parts.skip(pre.len() as int).drop_first() =~= q2);
        assert(q.drop_first() == q2);
        assert forall|j: int| 0 <= j < k - 1 implies e1.contains((#[trigger] c[j]).1) == e2.contains(c[j].1) by {
            assert(b[j + 1] == c[j]);
        }
        lemma_vis_update_row(n.children, path, pp, e1, e2, shows, k - 1, f);
        let un = NodeView { children: update_at(n.children, q2, f), ..n };
        lemma_update_keys(n.children, q2, f);
        assert(un.children.len() > 0);
        assert(vis_one(un, prefix, e2, shows) == seq![(un, path)] + vis(un.children, path, e2, shows));
    }
}

// ---------------------------------------------------------------------
// Toggling an optional twice
// ---------------------------------------------------------------------

/// Making an absent optional present and then absent again gives back
/// the tree it started from, and its path is no longer expanded (the
/// tree being well keyed, and the absent optional holding null and no
/// children, as a built one does).
#[verifier::rlimit(60)]
pub proof fn law_toggle_option_twice(s: TreeState, m: TreeState, n: TreeState)
    requires
        well_keyed(s.tree()),
        s.selected_entry() matches Some(e) && e.0.kind matches KindView::Option { is_some: false, .. }
            && e.0.inner_schema is Some && e.0.value == Json::Null && e.0.children.len() == 0,
        s.toggles_option(m),
        m.toggles_option(n),
    ensures
        n.tree() == s.tree(),
        n.expanded_set() == s.expanded_set().remove(s.selected_entry()->Some_0.1),
        n.selected == s.selected,
        n.edit_mode == s.edit_mode,
{
    let e = s.selected_entry()->Some_0;
    let k = s.selected as int;
    let q = split_dots(e.1);
    let t0 = s.tree();
    let ik = e.0.kind->Option_inner_kind;
    let schema = e.0.inner_schema->Some_0;
    let d = crate::node::default_value(schema, s.defs_view());
    let kids = if ik is Some {
        Seq::<NodeView>::empty()
    } else {
        crate::state::option_children(schema, d, s.defs_view(), split_dots(e.1).len())
    };
    let w1 = with_option_state(true, d, kids);
    let w0 = with_option_state(false, Json::Null, Seq::empty());
    assert(m.tree() == update_at(t0, q, w1));
    assert(m.shows() == s.shows());
    lemma_well_keyed_paths_distinct(s);
    let r = s.visible_list();
    assert(r[k] == e);
    assert forall|j: int| 0 <= j < k implies s.expanded_set().contains((#[trigger] r[j]).1) == m.expanded_set().contains(
        r[j].1,
    ) by {
        assert(r[j].1 != r[k].1);
    }
    assert(split_dots(e.1).skip(0) =~= q);
    lemma_vis_update_row(t0, Seq::empty(), Seq::empty(), s.expanded_set(), m.expanded_set(), s.shows(), k, w1);
    assert(m.visible_list()[k] == (w1(e.0), e.1));
    assert(m.selected_entry() == Some((w1(e.0), e.1)));
    assert(w1(e.0).kind == KindView::Option { is_some: true, inner_kind: ik });
    assert(n.tree() == update_at(m.tree(), q, w0));
    lemma_update_twice(t0, q, w1, w0);
    let g = |x: NodeView| w0(w1(x));
    lemma_selected_node_at(s);
    assert(e.0.children =~= Seq::<NodeView>::empty());
    assert(e.0.kind == KindView::Option { is_some: false, inner_kind: ik });
    assert(g(e.0).kind == e.0.kind);
    assert(g(e.0) =~= e.0);
    lemma_update_unchanged(t0, q, g);
    assert(n.expanded_set() =~= s.expanded_set().remove(e.1));
}

// ---------------------------------------------------------------------
// Enum variants from a `oneOf`
// ---------------------------------------------------------------------

/// Adding the variants of one `oneOf` entry keeps those found before.
proof fn lemma_infos_step_extends(p: crate::node::Infos, re: Json, defs: Entries)
    ensures
        crate::node::infos_step(p, re, defs).len() >= p.len(),
        forall|i: int| 0 <= i < p.len() ==> #[trigger] crate::node::infos_step(p, re, defs)[i] == p[i],
{
}

/// The variants of the first entries of a `oneOf` come first, unchanged,
/// among the variants of the whole `oneOf`.
pub proof fn lemma_infos_prefix(b: Seq<Json>, c: Seq<Json>, defs: Entries)
    ensures
        crate::node::infos_of(b + c, defs).len() >= crate::node::infos_of(b, defs).len(),
        forall|i: int|
            0 <= i < crate::node::infos_of(b, defs).len() ==> #[trigger] crate::node::infos_of(b + c, defs)[i]
                == crate::node::infos_of(b, defs)[i],
    decreases c.len(),
{
    if c.len() == 0 {
        assert(b + c =~= b);
    } else {
        lemma_infos_prefix(b, c.drop_last(), defs);
        assert((b + c).drop_last() =~= b + c.drop_last());
        assert((b + c).last() == c.last());
        lemma_infos_step_extends(crate::node::infos_of(b + c.drop_last(), defs), crate::node::resolved(c.last(), defs), defs);
    }
}

/// An entry of an enum's `oneOf` that lists unit values in an `"enum"`
/// array (and has no `"const"`) gives one unit variant per string, in
/// order, at that entry's place among the variants: the radio group
/// holds them as its variants and as unit radio items.
pub proof fn law_one_of_enum_entry_gives_unit_variants(
    key: Seq<char>,
    r: Json,
    v: Json,
    defs: Entries,
    depth: usize,
    descr: Option<Seq<char>>,
    b: Seq<Json>,
    x: Json,
    c: Seq<Json>,
    ea: Seq<Json>,
)
    requires
        get_array(r, "oneOf"@) == Some(b.push(x) + c),
        get_str(crate::node::resolved(x, defs), "const"@) is None,
        get_array(crate::node::resolved(x, defs), "enum"@) == Some(ea),
        crate::node::strings_of(ea).len() > 0,
    ensures
        crate::node::enum_node(key, r, v, defs, depth, descr) matches Some(n) && n.kind matches KindView::RadioGroup {
            variants,
        } && {
            let names = crate::node::strings_of(ea);
            let m = crate::node::infos_of(b, defs).len();
            &&& variants.len() == n.children.len()
            &&& variants.len() >= m + names.len()
            &&& forall|j: int|
                0 <= j < names.len() ==> {
                    &&& #[trigger] variants[m + j] == names[j]
                    &&& n.children[m + j].key == names[j]
                    &&& n.children[m + j].kind matches KindView::RadioItem { is_struct: false, .. }
                }
        },
{
    reveal(crate::node::variant_infos_of);
    let names = crate::node::strings_of(ea);
    let bx = b.push(x);
    let m = crate::node::infos_of(b, defs).len();
    assert(bx.drop_last() =~= b);
    assert(bx.last() == x);
    let ib = crate::node::infos_of(bx, defs);
    assert(ib == crate::node::infos_of(b, defs) + crate::node::unit_infos(names));
    lemma_infos_prefix(bx, c, defs);
    let all = crate::node::infos_of(bx + c, defs);
    assert(all.len() > 0);
    assert(crate::node::variant_infos_of(r, defs) == Some(all));
    let n = crate::node::enum_node(key, r, v, defs, depth, descr)->Some_0;
    let cv = crate::node::chosen_variant(all, v);
    lemma_radio_items(all, cv.0, cv.1, defs, depth);
    assert forall|j: int| 0 <= j < names.len() implies all[m + j] == (names[j], None::<Json>) by {
        assert(ib[m + j] == crate::node::unit_infos(names)[j]);
    }
}

// ---------------------------------------------------------------------
// Default values
// ---------------------------------------------------------------------

/// The default value of a schema (after following a `$ref`): its
/// `"default"`; else null for an optional (`anyOf`, or a `"type"` list
/// holding `"null"`); else the first `oneOf` constant or the first
/// `"enum"` value; else, by its `"type"` name: the empty string, `0`,
/// `0.0`, `false`, the empty array, an object, or null for any other
/// type.
pub proof fn law_default_value(schema: Json, defs: Entries)
    ensures
        ({
            let r = crate::node::resolved(schema, defs);
            let dv = crate::node::default_value(schema, defs);
            let plain = json_get(r, "default"@) is None && json_get(r, "anyOf"@) is None && get_array(r, "type"@) is None
                && get_array(r, "oneOf"@) is None && get_array(r, "enum"@) is None;
            &&& json_get(r, "default"@) is Some ==> dv == json_get(r, "default"@)->Some_0
            &&& json_get(r, "default"@) is None && json_get(r, "anyOf"@) is Some ==> dv == Json::Null
            &&& (json_get(r, "default"@) is None && json_get(r, "anyOf"@) is None && get_array(r, "type"@) is Some
                && crate::node::strings_of(get_array(r, "type"@)->Some_0).contains("null"@)) ==> dv == Json::Null
            &&& (json_get(r, "default"@) is None && json_get(r, "anyOf"@) is None && get_array(r, "type"@) is None
                && get_array(r, "oneOf"@) is Some && get_array(r, "oneOf"@)->Some_0.len() > 0 && json_get(
                get_array(r, "oneOf"@)->Some_0[0],
                "const"@,
            ) is Some) ==> dv == json_get(get_array(r, "oneOf"@)->Some_0[0], "const"@)->Some_0
            &&& (json_get(r, "default"@) is None && json_get(r, "anyOf"@) is None && get_array(r, "type"@) is None
                && get_array(r, "oneOf"@) is None && get_array(r, "enum"@) is Some && get_array(r, "enum"@)->Some_0.len()
                > 0) ==> dv == get_array(r, "enum"@)->Some_0[0]
            &&& (plain && get_str(r, "type"@) == Some("string"@)) ==> dv == Json::Str(Seq::empty())
            &&& (plain && get_str(r, "type"@) == Some("integer"@)) ==> dv == Json::Number(seq!['0'])
            &&& (plain && get_str(r, "type"@) == Some("number"@)) ==> dv == Json::Number(seq!['0', '.', '0'])
            &&& (plain && get_str(r, "type"@) == Some("boolean"@)) ==> dv == Json::Bool(false)
            &&& (plain && get_str(r, "type"@) == Some("array"@)) ==> dv == Json::Array(Seq::empty())
            &&& (plain && get_str(r, "type"@) == Some("object"@)) ==> dv is Object
            &&& (plain && json_get(r, "type"@) is None) ==> dv == Json::Null
        }),
{
    let r = crate::node::resolved(schema, defs);
    reveal(crate::node::type_name_of);
    reveal_strlit("string");
    reveal_strlit("integer");
    reveal_strlit("number");
    reveal_strlit("boolean");
    reveal_strlit("array");
    reveal_strlit("object");
    reveal_strlit("0");
    reveal_strlit("0.0");
    assert("string"@[0] == 's' && "integer"@[0] == 'i' && "number"@[0] == 'n' && "boolean"@[0] == 'b'
        && "array"@[0] == 'a' && "object"@[0] == 'o');
    assert("0"@ =~= seq!['0']);
    assert("0.0"@ =~= seq!['0', '.', '0']);
    if json_get(r, "type"@) is None {
        assert(crate::node::type_name_of(r) == Seq::<char>::empty());
        assert("string"@.len() > 0 && "integer"@.len() > 0 && "number"@.len() > 0 && "boolean"@.len() > 0
            && "array"@.len() > 0 && "object"@.len() > 0);
    }
}

// ---------------------------------------------------------------------
// What confirming an edit stores
// ---------------------------------------------------------------------

/// A node kind, plain or as the inner kind of a present optional.
pub open spec fn is_kind_or_present_inner(k: KindView, inner: KindView) -> bool {
    k == inner || k == KindView::Option { is_some: true, inner_kind: Some(Box::new(inner)) }
}

/// Confirming an edit stores what the buffer reads as, the same for a
/// plain node and for a present optional of that kind: a string node
/// gets the buffer's text; an integer node a number whose text reads as
/// the same integer as the buffer (and nothing changes when the buffer
/// reads as no integer); a float node the number it reads as. The node
/// keeps its kind, and edit mode ends (the tree being well keyed).
#[verifier::rlimit(40)]
pub proof fn law_confirm_stores_what_the_buffer_reads_as(
    s: TreeState,
    n: TreeState,
    float_reading: Option<Seq<char>>,
    changed: bool,
)
    requires
        well_keyed(s.tree()),
        s.selected_entry() is Some,
        edit_view(s.edit_mode) is Some,
        s.confirms_edit(n, float_reading, changed),
    ensures
        ({
            let e = s.selected_entry()->Some_0;
            let b = edit_view(s.edit_mode)->Some_0.0;
            let k = e.0.kind;
            let after = node_at(n.tree(), split_dots(e.1));
            &&& n.edit_mode == crate::state::EditMode::Normal
            &&& is_kind_or_present_inner(k, KindView::String) ==> changed && after == Some(
                NodeView { value: Json::Str(b), ..e.0 },
            )
            &&& (is_kind_or_present_inner(k, KindView::Integer) && parse_i64(b) is Some) ==> {
                &&& changed
                &&& after is Some
                &&& after->Some_0.kind == k
                &&& after->Some_0.value is Number
                &&& parse_i64(after->Some_0.value->Number_0) == parse_i64(b)
            }
            &&& (is_kind_or_present_inner(k, KindView::Integer) && parse_i64(b) is None) ==> !changed && n.tree()
                == s.tree()
            &&& (is_kind_or_present_inner(k, KindView::Float) && float_reading is Some) ==> changed && after == Some(
                NodeView { value: Json::Number(float_reading->Some_0), ..e.0 },
            )
        }),
{
    let e = s.selected_entry()->Some_0;
    let b = edit_view(s.edit_mode)->Some_0.0;
    let q = split_dots(e.1);
    lemma_selected_node_at(s);
    match confirmed_value(e.0.kind, b, float_reading) {
        Some(v) => {
            law_update_read_back(s.tree(), q, with_value(v));
            if is_kind_or_present_inner(e.0.kind, KindView::Integer) && parse_i64(b) is Some {
                law_integer_text_round_trip(parse_i64(b)->Some_0);
            }
        },
        None => {},
    }
}

// ---------------------------------------------------------------------
// Enter and Space outside edit mode
// ---------------------------------------------------------------------

/// Enter or Space (no Control, no Alt) on an enabled boolean node flips
/// its value at its path and reports a changed value; nothing else moves
/// (the tree being well keyed).
pub proof fn law_enter_or_space_flips_a_boolean(s: TreeState, n: TreeState, key: KeyPress, r: EventResult)
    requires
        well_keyed(s.tree()),
        key.code == crate::event::KeyCode::Enter || key.code == crate::event::KeyCode::Char(' '),
        !key.control && !key.alt,
        s.selected_entry() matches Some(e) && e.0.kind == KindView::Bool && s.allows(e.1),
        s.handles_normal_key(n, key, r),
    ensures
        r == (EventResult::Consumed { value_changed: true }),
        node_at(n.tree(), split_dots(s.selected_entry()->Some_0.1)) == Some(
            NodeView { value: Json::Bool(!bool_or_false(s.selected_entry()->Some_0.0.value)), ..s.selected_entry()->Some_0.0 },
        ),
        n.selected == s.selected,
        n.expanded@ == s.expanded@,
        n.edit_mode == s.edit_mode,
{
    let e = s.selected_entry()->Some_0;
    assert(crate::event::normal_action(s, key) == crate::event::KeyAction::ToggleBool);
    lemma_selected_node_at(s);
    law_update_read_back(s.tree(), split_dots(e.1), with_value(Json::Bool(!bool_or_false(e.0.value))));
}

/// On a node that Enter and Space both toggle, expand or select (a
/// boolean, an optional without an inline kind, a radio or checkbox
/// item, or a container), the two keys do the same.
pub proof fn law_enter_acts_as_space_on_toggles(
    s: TreeState,
    n: TreeState,
    enter: KeyPress,
    space: KeyPress,
    r: EventResult,
)
    requires
        enter.code == crate::event::KeyCode::Enter && !enter.control && !enter.alt,
        space.code == crate::event::KeyCode::Char(' ') && !space.control && !space.alt,
        s.selected_entry() matches Some(e) && (e.0.kind is Bool || e.0.kind matches KindView::Option {
            inner_kind: None,
            ..
        } || e.0.kind is RadioItem || e.0.kind is CheckboxItem || e.0.kind is Struct || e.0.kind is RadioGroup
            || e.0.kind is Checkboxes),
    ensures
        s.handles_normal_key(n, enter, r) <==> s.handles_normal_key(n, space, r),
{
    assert(crate::event::normal_action(s, enter) == crate::event::normal_action(s, space));
}

/// Enter (no Control, no Alt) on an enabled string or integer node, or
/// a present optional of one, starts an edit of its text with the cursor
/// at the end (the tree being well keyed).
pub proof fn law_enter_edits_text(s: TreeState, n: TreeState, key: KeyPress, r: EventResult)
    requires
        key.code == crate::event::KeyCode::Enter && !key.control && !key.alt,
        s.selected_entry() matches Some(e) && s.allows(e.1) && (is_kind_or_present_inner(e.0.kind, KindView::String)
            || is_kind_or_present_inner(e.0.kind, KindView::Integer)),
        s.handles_normal_key(n, key, r),
    ensures
        ({
            let e = s.selected_entry()->Some_0;
            let text = match e.0.value {
                Json::Str(t) => t,
                Json::Number(t) => t,
                _ => Seq::empty(),
            };
            &&& r == (EventResult::Consumed { value_changed: false })
            &&& (is_kind_or_present_inner(e.0.kind, KindView::String) && e.0.value is Str) ==> edit_view(n.edit_mode)
                == Some((text, crate::text::byte_len(text)))
            &&& (is_kind_or_present_inner(e.0.kind, KindView::Integer) && e.0.value is Number) ==> edit_view(
                n.edit_mode,
            ) == Some((text, crate::text::byte_len(text)))
            &&& n.tree() == s.tree()
        }),
{
    assert(crate::event::normal_action(s, key) == crate::event::KeyAction::Edit);
}

// ---------------------------------------------------------------------
// The mark before a boolean, a radio item or a checkbox item
// ---------------------------------------------------------------------

/// The mark a row of a boolean, radio item or checkbox item starts with
/// after its indent: a filled circle for the selected radio item and an
/// empty one for the others; a filled square for a true boolean or a
/// checked item and an empty one otherwise.
pub open spec fn expected_mark(n: NodeView) -> char {
    if n.kind matches KindView::RadioItem { selected: true, .. } {
        '\u{25CF}'
    } else if n.kind is RadioItem {
        '\u{25CB}'
    } else if n.kind matches KindView::CheckboxItem { checked: true } || (n.kind is Bool && bool_or_false(n.value)) {
        '\u{25A0}'
    } else {
        '\u{25A1}'
    }
}

/// The row of a boolean, radio item or checkbox item shows, right after
/// its indent, the mark of its state (see `expected_mark`), and that is
/// the only symbol drawn in that column (the row fitting the frame's
/// columns).
#[verifier::rlimit(40)]
pub proof fn law_row_mark(
    n: NodeView,
    is_selected: bool,
    disabled: bool,
    expanded: bool,
    edit: Option<(Seq<char>, nat)>,
    x0: int,
    y: u16,
    max_x: int,
)
    requires
        n.kind is Bool || n.kind is RadioItem || n.kind is CheckboxItem,
        0 <= x0,
        x0 + 2 * n.depth < max_x,
        max_x <= u16::MAX,
    ensures
        ({
            let cells = row_render(n, is_selected, disabled, expanded, edit, x0, y, max_x).0;
            let x1 = (x0 + 2 * n.depth) as u16;
            &&& exists|j: int|
                0 <= j < cells.len() && #[trigger] cells[j] == (Cell {
                    x: x1,
                    y,
                    symbol: Some(expected_mark(n)),
                    paint: value_paint(disabled),
                })
            &&& forall|j: int|
                0 <= j < cells.len() && (#[trigger] cells[j]).x == x1 && cells[j].symbol is Some ==> cells[j].symbol == Some(
                    expected_mark(n),
                )
        }),
{
    let x1 = x0 + 2 * n.depth;
    let ind = indicator(n)->Some_0;
    assert(ind.len() == 2 && ind[0] == expected_mark(n) && ind[1] == ' ');
    let lead = row_lead(n, is_selected, x0, y, max_x);
    assert(text_end(x0, max_x, indent_of(n.depth as nat)) == x1);
    let ic = text_cells(x1, y, max_x, ind, value_paint(disabled));
    let x2 = text_end(x1, max_x, ind);
    let kc = text_cells(x2, y, max_x, n.key, crate::layout::key_paint(disabled));
    let cells = row_render(n, is_selected, disabled, expanded, edit, x0, y, max_x).0;
    assert(cells == lead + (ic + kc));
    assert(x2 >= x1 + 1);
    assert(cells[lead.len() as int] == ic[0]);
    assert forall|j: int|
        0 <= j < cells.len() && (#[trigger] cells[j]).x == x1 as u16 && cells[j].symbol is Some implies cells[j].symbol
        == Some(expected_mark(n)) by {
        let fill = if is_selected {
            crate::layout::fill_cells(x0, max_x, y)
        } else {
            Seq::empty()
        };
        let indent = text_cells(x0, y, max_x, indent_of(n.depth as nat), crate::layout::Paint::Plain);
        assert(lead == fill + indent);
        if j < fill.len() {
            assert(cells[j] == fill[j]);
        } else if j < lead.len() {
            assert(cells[j] == indent[j - fill.len()]);
            assert(x0 + (j - fill.len()) < x1);
        } else if j < lead.len() + ic.len() {
            let i = j - lead.len();
            assert(cells[j] == ic[i]);
            if i == 1 {
                assert(x1 + 1 < max_x);
            }
        } else {
            let i = j - lead.len() - ic.len();
            assert(cells[j] == kc[i]);
            assert(x2 + i < max_x);
        }
    }
}

/// A `oneOf` entry with a `"const"` gives one unit variant named by it,
/// and an entry without `"const"` or `"enum"` whose `"properties"` hold
/// exactly one entry gives one struct variant named by that property, at
/// that entry's place among the variants.
pub proof fn law_one_of_const_and_struct_entries(
    key: Seq<char>,
    r: Json,
    v: Json,
    defs: Entries,
    depth: usize,
    descr: Option<Seq<char>>,
    b: Seq<Json>,
    x: Json,
    c: Seq<Json>,
)
    requires
        get_array(r, "oneOf"@) == Some(b.push(x) + c),
        get_str(crate::node::resolved(x, defs), "const"@) is Some || (get_array(crate::node::resolved(x, defs), "enum"@)
            is None && get_object(crate::node::resolved(x, defs), "properties"@) is Some && get_object(
            crate::node::resolved(x, defs),
            "properties"@,
        )->Some_0.len() == 1),
    ensures
        crate::node::enum_node(key, r, v, defs, depth, descr) matches Some(n) && n.kind matches KindView::RadioGroup {
            variants,
        } && {
            let ex = crate::node::resolved(x, defs);
            let m = crate::node::infos_of(b, defs).len() as int;
            let name = match get_str(ex, "const"@) {
                Some(cn) => cn,
                None => get_object(ex, "properties"@)->Some_0[0].0,
            };
            &&& variants.len() == n.children.len()
            &&& m < variants.len()
            &&& variants[m] == name
            &&& n.children[m].key == name
            &&& n.children[m].kind matches KindView::RadioItem { is_struct, .. } && is_struct == (get_str(ex, "const"@)
                is None)
        },
{
    reveal(crate::node::variant_infos_of);
    let bx = b.push(x);
    assert(bx.drop_last() =~= b);
    assert(bx.last() == x);
    lemma_infos_prefix(bx, c, defs);
    let all = crate::node::infos_of(bx + c, defs);
    let m = crate::node::infos_of(b, defs).len() as int;
    assert(crate::node::infos_of(bx, defs).len() == m + 1);
    assert(all.len() > 0);
    let n = crate::node::enum_node(key, r, v, defs, depth, descr)->Some_0;
    let cv = crate::node::chosen_variant(all, v);
    lemma_radio_items(all, cv.0, cv.1, defs, depth);
    assert(all[m] == crate::node::infos_of(bx, defs)[m]);
}

/// Outside edit mode, with no Control or Alt: Up and `k` move the
/// selection one row up (staying on the first row), Down and `j` one row
/// down (staying on the last; stated below the largest `usize`), and
/// report no changed value; with Control
/// or Alt held a key is ignored and changes nothing.
pub proof fn law_navigation_keys(s: TreeState, n: TreeState, key: KeyPress, r: EventResult)
    requires
        s.handles_normal_key(n, key, r),
    ensures
        (key.control || key.alt) ==> r == EventResult::Ignored && n.nodes@ == s.nodes@ && n.expanded@ == s.expanded@
            && n.selected == s.selected && n.edit_mode == s.edit_mode,
        (!key.control && !key.alt && (key.code == crate::event::KeyCode::Up || key.code == crate::event::KeyCode::Char('k')))
            ==> r == (EventResult::Consumed { value_changed: false }) && n.selected == (if s.selected > 0 {
            s.selected - 1
        } else {
            0
        }) && n.nodes@ == s.nodes@,
        (!key.control && !key.alt && s.selected < usize::MAX && (key.code == crate::event::KeyCode::Down || key.code
            == crate::event::KeyCode::Char('j'))) ==> r == (EventResult::Consumed { value_changed: false }) && n.selected == (if s.selected + 1
            < s.visible_list().len() {
            s.selected + 1
        } else {
            s.selected as int
        }) && n.nodes@ == s.nodes@,
{
}

/// Outside edit mode, Delete or Backspace (no Control, no Alt) on an
/// enabled present optional makes it absent, with value null, no children
/// and its path collapsed, and reports a changed value; on any other node
/// it is ignored (the tree being well keyed).
pub proof fn law_delete_clears_an_optional(s: TreeState, n: TreeState, key: KeyPress, r: EventResult)
    requires
        well_keyed(s.tree()),
        key.code == crate::event::KeyCode::Delete || key.code == crate::event::KeyCode::Backspace,
        !key.control && !key.alt,
        s.selected_entry() is Some,
        s.handles_normal_key(n, key, r),
    ensures
        ({
            let e = s.selected_entry()->Some_0;
            if e.0.kind matches KindView::Option { is_some: true, .. } && s.allows(e.1) {
                &&& r == (EventResult::Consumed { value_changed: true })
                &&& node_at(n.tree(), split_dots(e.1)) matches Some(m) && m.kind matches KindView::Option {
                    is_some: false,
                    ..
                } && m.value == Json::Null && m.children.len() == 0 && m.key == e.0.key
                &&& !n.expanded_set().contains(e.1)
            } else {
                r == EventResult::Ignored && n.nodes@ == s.nodes@ && n.expanded@ == s.expanded@
            }
        }),
{
    let e = s.selected_entry()->Some_0;
    if e.0.kind matches KindView::Option { is_some: true, .. } && s.allows(e.1) {
        lemma_selected_node_at(s);
        law_update_read_back(s.tree(), split_dots(e.1), with_option_state(false, Json::Null, Seq::empty()));
    }
}

// ---------------------------------------------------------------------
// The text shown for a value
// ---------------------------------------------------------------------

/// The text shown after a node's key: a string's characters; a number's
/// text (`0` or `0.0` when the value is no number); `true` or `false`;
/// `None` for an absent optional and `Some(..)` around the value of a
/// present scalar optional; the key of a radio group's first selected
/// item (`?` when none is); `[checked/all]` for a checkbox list; nothing
/// for other nodes.
#[verifier::rlimit(40)]
pub proof fn law_value_text(n: NodeView)
    ensures
        n.kind == KindView::String ==> format_text(n) == match n.value {
            Json::Str(t) => t,
            _ => Seq::empty(),
        },
        n.kind == KindView::Integer ==> format_text(n) == match n.value {
            Json::Number(t) => t,
            _ => seq!['0'],
        },
        n.kind == KindView::Float ==> format_text(n) == match n.value {
            Json::Number(t) => t,
            _ => seq!['0', '.', '0'],
        },
        n.kind == KindView::Bool ==> format_text(n) == if n.value == Json::Bool(true) {
            seq!['t', 'r', 'u', 'e']
        } else {
            seq!['f', 'a', 'l', 's', 'e']
        },
        n.kind matches KindView::Option { is_some: false, .. } ==> format_text(n) == seq!['N', 'o', 'n', 'e'],
        (n.kind == KindView::Option { is_some: true, inner_kind: Some(Box::new(KindView::String)) } && n.value is Str)
            ==> format_text(n) == seq!['S', 'o', 'm', 'e', '('] + n.value->Str_0 + seq![')'],
        (n.kind == KindView::Option { is_some: true, inner_kind: Some(Box::new(KindView::Integer)) } && n.value is Number)
            ==> format_text(n) == seq!['S', 'o', 'm', 'e', '('] + n.value->Number_0 + seq![')'],
        n.kind == (KindView::Option { is_some: true, inner_kind: None }) ==> format_text(n) == Seq::<char>::empty(),
        (n.kind is RadioGroup && forall|i: int| 0 <= i < n.children.len() ==> !crate::value::is_selected_item(
            #[trigger] n.children[i],
        )) ==> format_text(n) == seq!['?'],
        forall|k: int|
            #![trigger n.children[k]]
            (n.kind is RadioGroup && 0 <= k < n.children.len() && crate::value::is_selected_item(n.children[k]) && forall|
                i: int,
            | 0 <= i < k ==> !crate::value::is_selected_item(#[trigger] n.children[i])) ==> format_text(n)
                == n.children[k].key,
        n.kind is Checkboxes ==> format_text(n) == seq!['['] + decimal(checked_names(n.children).len()) + seq!['/']
            + decimal(n.kind->Checkboxes_variants.len()) + seq![']'],
        (n.kind is Struct || n.kind is RadioItem || n.kind is CheckboxItem) ==> format_text(n) == Seq::<char>::empty(),
{
    reveal_strlit("true");
    reveal_strlit("false");
    reveal_strlit("None");
    reveal_strlit("Some(");
    reveal_strlit(")");
    reveal_strlit("?");
    reveal_strlit("[");
    reveal_strlit("/");
    reveal_strlit("]");
    reveal_strlit("0");
    reveal_strlit("0.0");
    assert("true"@ =~= seq!['t', 'r', 'u', 'e']);
    assert("false"@ =~= seq!['f', 'a', 'l', 's', 'e']);
    assert("None"@ =~= seq!['N', 'o', 'n', 'e']);
    assert("Some("@ =~= seq!['S', 'o', 'm', 'e', '(']);
    assert(")"@ =~= seq![')']);
    assert("?"@ =~= seq!['?']);
    assert("["@ =~= seq!['[']);
    assert("/"@ =~= seq!['/']);
    assert("]"@ =~= seq![']']);
    assert("0"@ =~= seq!['0']);
    assert("0.0"@ =~= seq!['0', '.', '0']);
    if n.kind is RadioGroup {
        crate::value::lemma_first_selected_spec(n.children);
        assert forall|k: int|
            #![trigger n.children[k]]
            0 <= k < n.children.len() && crate::value::is_selected_item(n.children[k]) && forall|i: int|
                0 <= i < k ==> !crate::value::is_selected_item(#[trigger] n.children[i]) implies format_text(n)
                == n.children[k].key by {
            crate::value::lemma_first_selected(n.children, k);
        }
    }
}

// ---------------------------------------------------------------------
// The expand marker
// ---------------------------------------------------------------------

/// The marker after the indent of a row without a state mark: a down
/// triangle for an expanded container (struct, radio group, checkbox list,
/// or present optional with children), a right triangle for a collapsed
/// one, and a blank for any other node.
pub open spec fn expected_marker(n: NodeView, expanded: bool) -> char {
    let container = n.kind is Struct || n.kind is RadioGroup || n.kind is Checkboxes || (n.kind matches KindView::Option {
        is_some: true,
        ..
    } && n.children.len() > 0);
    if !container {
        ' '
    } else if expanded {
        '\u{25BC}'
    } else {
        '\u{25B6}'
    }
}

/// A row without a state mark shows, right after its indent, its expand
/// marker (see `expected_marker`), and that is the only symbol drawn in
/// that column (the row fitting the frame's columns).
#[verifier::rlimit(40)]
pub proof fn law_row_marker(
    n: NodeView,
    is_selected: bool,
    disabled: bool,
    expanded: bool,
    edit: Option<(Seq<char>, nat)>,
    x0: int,
    y: u16,
    max_x: int,
)
    requires
        !(n.kind is Bool || n.kind is RadioItem || n.kind is CheckboxItem),
        0 <= x0,
        x0 + 2 * n.depth < max_x,
        max_x <= u16::MAX,
    ensures
        ({
            let cells = row_render(n, is_selected, disabled, expanded, edit, x0, y, max_x).0;
            let x1 = (x0 + 2 * n.depth) as u16;
            &&& exists|j: int|
                0 <= j < cells.len() && #[trigger] cells[j] == (Cell {
                    x: x1,
                    y,
                    symbol: Some(expected_marker(n, expanded)),
                    paint: crate::layout::key_paint(disabled),
                })
            &&& forall|j: int|
                0 <= j < cells.len() && (#[trigger] cells[j]).x == x1 && cells[j].symbol is Some ==> cells[j].symbol == Some(
                    expected_marker(n, expanded),
                )
        }),
{
    let x1 = x0 + 2 * n.depth;
    assert(indicator(n) is None);
    let mk = crate::layout::marker(n, expanded);
    assert(mk.len() == 2 && mk[0] == expected_marker(n, expanded) && mk[1] == ' ');
    let lead = row_lead(n, is_selected, x0, y, max_x);
    assert(text_end(x0, max_x, indent_of(n.depth as nat)) == x1);
    let x2 = text_end(x1, max_x, mk);
    let x3 = text_end(x2, max_x, n.key);
    let x4 = text_end(x3, max_x, seq![':', ' ']);
    let mc = text_cells(x1, y, max_x, mk, crate::layout::key_paint(disabled));
    let kc = text_cells(x2, y, max_x, n.key, crate::layout::key_paint(disabled));
    let cc = text_cells(x3, y, max_x, seq![':', ' '], crate::layout::Paint::Plain);
    let vc = crate::layout::value_cells(n, is_selected, disabled, edit, x4, y, max_x);
    let cells = row_render(n, is_selected, disabled, expanded, edit, x0, y, max_x).0;
    assert(cells == lead + (mc + kc + cc + vc.0));
    assert(x2 >= x1 + 1);
    assert(cells[lead.len() as int] == mc[0]);
    let rest = kc + cc + vc.0;
    assert(mc + kc + cc + vc.0 == mc + rest);
    assert forall|i: int| 0 <= i < rest.len() implies (#[trigger] rest[i]).x != x1 as u16 || rest[i].symbol is None by {
        if i < kc.len() {
            assert(rest[i] == kc[i]);
            assert(x2 + i < max_x);
        } else if i < kc.len() + cc.len() {
            assert(rest[i] == cc[i - kc.len()]);
            assert(x3 >= x2);
            assert(x3 + (i - kc.len()) < max_x);
        } else {
            let i2 = i - kc.len() - cc.len();
            assert(rest[i] == vc.0[i2]);
            assert(x3 >= x2 && x4 >= x3);
            if is_selected && !disabled && edit is Some {
                let b = edit->Some_0.0;
                let tc = text_cells(x4, y, max_x, b, crate::layout::Paint::Edit);
                if i2 < tc.len() {
                    assert(vc.0[i2] == tc[i2]);
                    assert(x4 + i2 < max_x);
                } else {
                    let cx = x4 + ((crate::buffer::char_at_byte(b, edit->Some_0.1) as u16) as int);
                    assert(cx >= x4);
                    assert(cx < max_x);
                }
            } else {
                let tc = text_cells(x4, y, max_x, format_text(n), crate::layout::value_paint(disabled));
                assert(vc.0[i2] == tc[i2]);
                assert(x4 + i2 < max_x);
            }
        }
    }
    assert forall|j: int|
        0 <= j < cells.len() && (#[trigger] cells[j]).x == x1 as u16 && cells[j].symbol is Some implies cells[j].symbol
        == Some(expected_marker(n, expanded)) by {
        let fill = if is_selected {
            crate::layout::fill_cells(x0, max_x, y)
        } else {
            Seq::empty()
        };
        let indent = text_cells(x0, y, max_x, indent_of(n.depth as nat), crate::layout::Paint::Plain);
        assert(lead == fill + indent);
        if j < fill.len() {
            assert(cells[j] == fill[j]);
        } else if j < lead.len() {
            assert(cells[j] == indent[j - fill.len()]);
            assert(x0 + (j - fill.len()) < x1);
        } else if j < lead.len() + mc.len() {
            let i = j - lead.len();
            assert(cells[j] == mc[i]);
            if i == 1 {
                assert(x1 + 1 < max_x);
            }
        } else {
            let i = j - lead.len() - mc.len();
            assert(cells[j] == rest[i]);
        }
    }
}

// ---------------------------------------------------------------------
// What a new state shows expanded
// ---------------------------------------------------------------------

/// A new state (whose expanded paths are those of `exp_paths`) shows
/// every top-level struct, radio group, checkbox list and present
/// optional expanded, and, in a well-keyed tree, no top-level scalar,
/// absent optional, radio item or checkbox item.
pub proof fn law_new_state_expands_containers(t: Seq<NodeView>, i: int)
    requires
        0 <= i < t.len(),
    ensures
        (t[i].kind is Struct || t[i].kind is RadioGroup || t[i].kind is Checkboxes || t[i].kind matches KindView::Option {
            is_some: true,
            ..
        }) ==> crate::state::exp_paths(t, Seq::empty()).contains(t[i].key),
        (well_keyed(t) && (t[i].kind is String || t[i].kind is Integer || t[i].kind is Float || t[i].kind is Bool
            || t[i].kind matches KindView::Option { is_some: false, .. })) ==> !crate::state::exp_paths(t, Seq::empty()).contains(
            t[i].key,
        ),
    decreases t.len(),
{
    let d = t.drop_last();
    let l = t.last();
    let a = crate::state::exp_paths(d, Seq::empty());
    let b = crate::state::exp_paths_one(l, Seq::empty());
    assert(crate::state::exp_paths(t, Seq::empty()) == a + b);
    if i < t.len() - 1 {
        assert(d[i] == t[i]);
        law_new_state_expands_containers(d, i);
        if (t[i].kind is Struct || t[i].kind is RadioGroup || t[i].kind is Checkboxes || t[i].kind matches KindView::Option {
            is_some: true,
            ..
        }) {
            let w = choose|w: int| 0 <= w < a.len() && a[w] == t[i].key;
            assert((a + b)[w] == t[i].key);
        }
        if well_keyed(t) && (t[i].kind is String || t[i].kind is Integer || t[i].kind is Float || t[i].kind is Bool
            || t[i].kind matches KindView::Option { is_some: false, .. }) {
            lemma_well_keyed(t);
            assert(well_keyed(d));
            assert(t[i].key != l.key);
            assert(l == t[t.len() - 1]);
            lemma_exp_paths_one_top(l, t[i].key);
            if (a + b).contains(t[i].key) {
                let w = choose|w: int| 0 <= w < (a + b).len() && (a + b)[w] == t[i].key;
                if w < a.len() {
                    assert(a[w] == t[i].key);
                } else {
                    assert(b[w - a.len()] == t[i].key);
                }
            }
        }
    } else {
        assert(l == t[i]);
        if (t[i].kind is Struct || t[i].kind is RadioGroup || t[i].kind is Checkboxes || t[i].kind matches KindView::Option {
            is_some: true,
            ..
        }) {
            assert(b[0] == l.key);
            assert((a + b)[a.len() as int] == l.key);
        }
        if well_keyed(t) && (t[i].kind is String || t[i].kind is Integer || t[i].kind is Float || t[i].kind is Bool
            || t[i].kind matches KindView::Option { is_some: false, .. }) {
            lemma_well_keyed(t);
            assert(b.len() == 0);
            assert(forall|j: int| 0 <= j < d.len() ==> (#[trigger] d[j]).key != l.key) by {
                assert forall|j: int| 0 <= j < d.len() implies (#[trigger] d[j]).key != l.key by {
                    assert(d[j] == t[j]);
                    assert(t[j].key != t[t.len() - 1].key);
                }
            }
            assert(forall|j: int| 0 <= j < d.len() ==> (#[trigger] d[j]).key.len() > 0) by {
                assert forall|j: int| 0 <= j < d.len() implies (#[trigger] d[j]).key.len() > 0 by {
                    assert(d[j] == t[j]);
                }
            }
            lemma_exp_paths_top(d, l.key);
            assert((a + b) =~= a);
        }
    }
}

/// Below a non-empty prefix, every path that starts expanded holds a dot.
pub proof fn lemma_exp_paths_dotted(nodes: Seq<NodeView>, prefix: Seq<char>)
    requires
        prefix.len() > 0,
    ensures
        forall|i: int|
            0 <= i < crate::state::exp_paths(nodes, prefix).len() ==> (#[trigger] crate::state::exp_paths(nodes, prefix)[i]).contains('.'),
    decreases nodes, 0int,
{
    if nodes.len() > 0 {
        let a = crate::state::exp_paths(nodes.drop_last(), prefix);
        let b = crate::state::exp_paths_one(nodes.last(), prefix);
        lemma_exp_paths_dotted(nodes.drop_last(), prefix);
        lemma_exp_paths_one_dotted(nodes.last(), prefix);
        assert forall|i: int| 0 <= i < (a + b).len() implies (#[trigger] (a + b)[i]).contains('.') by {
            if i < a.len() {
                assert((a + b)[i] == a[i]);
            } else {
                assert((a + b)[i] == b[i - a.len()]);
            }
        }
    }
}

pub proof fn lemma_exp_paths_one_dotted(n: NodeView, prefix: Seq<char>)
    requires
        prefix.len() > 0,
    ensures
        forall|i: int|
            0 <= i < crate::state::exp_paths_one(n, prefix).len() ==> (#[trigger] crate::state::exp_paths_one(n, prefix)[i]).contains('.'),
    decreases n, 1int,
{
    let path = crate::text::join_path(prefix, n.key);
    assert(path[prefix.len() as int] == '.');
    if crate::state::starts_expanded(n) {
        assert(decreases_to!(n => n.children));
        lemma_exp_paths_dotted(n.children, path);
        let c = crate::state::exp_paths(n.children, path);
        assert forall|i: int| 0 <= i < (seq![path] + c).len() implies (#[trigger] (seq![path] + c)[i]).contains('.') by {
            if i > 0 {
                assert((seq![path] + c)[i] == c[i - 1]);
            }
        }
    }
}

/// At the top level, every path that starts expanded is the key of a
/// top-level node or holds a dot.
pub proof fn lemma_exp_paths_top(nodes: Seq<NodeView>, k: Seq<char>)
    requires
        !k.contains('.'),
        forall|j: int| 0 <= j < nodes.len() ==> (#[trigger] nodes[j]).key != k && nodes[j].key.len() > 0,
    ensures
        !crate::state::exp_paths(nodes, Seq::empty()).contains(k),
    decreases nodes.len(),
{
    if nodes.len() > 0 {
        let d = nodes.drop_last();
        let l = nodes.last();
        assert forall|j: int| 0 <= j < d.len() implies (#[trigger] d[j]).key != k by {
            assert(d[j] == nodes[j]);
        }
        lemma_exp_paths_top(d, k);
        assert(l == nodes[nodes.len() - 1]);
        lemma_exp_paths_one_top(l, k);
        let a = crate::state::exp_paths(d, Seq::empty());
        let b = crate::state::exp_paths_one(l, Seq::empty());
        if (a + b).contains(k) {
            let w = choose|w: int| 0 <= w < (a + b).len() && (a + b)[w] == k;
            if w < a.len() {
                assert(a[w] == k);
            } else {
                assert(b[w - a.len()] == k);
            }
        }
    }
}

/// The paths of `exp_paths_one(n, "")` are `n`'s key or hold a dot.
pub proof fn lemma_exp_paths_one_top(n: NodeView, k: Seq<char>)
    requires
        n.key.len() > 0,
        k != n.key,
        !k.contains('.'),
    ensures
        !crate::state::exp_paths_one(n, Seq::empty()).contains(k),
{
    if crate::state::starts_expanded(n) {
        let path = crate::text::join_path(Seq::empty(), n.key);
        assert(path == n.key);
        if n.key.len() > 0 {
            lemma_exp_paths_dotted(n.children, path);
            let c = crate::state::exp_paths(n.children, path);
            if (seq![path] + c).contains(k) {
                let w = choose|w: int| 0 <= w < (seq![path] + c).len() && (seq![path] + c)[w] == k;
                if w > 0 {
                    assert(c[w - 1] == k);
                    assert(c[w - 1].contains('.'));
                }
            }
        }
    }
}

// ---------------------------------------------------------------------
// The kind of node a field schema builds
// ---------------------------------------------------------------------

/// The node kind of a scalar type name.
pub open spec fn scalar_kind_named(t: Seq<char>) -> Option<KindView> {
    if t == seq!['s', 't', 'r', 'i', 'n', 'g'] {
        Some(KindView::String)
    } else if t == seq!['i', 'n', 't', 'e', 'g', 'e', 'r'] {
        Some(KindView::Integer)
    } else if t == seq!['n', 'u', 'm', 'b', 'e', 'r'] {
        Some(KindView::Float)
    } else if t == seq!['b', 'o', 'o', 'l', 'e', 'a', 'n'] {
        Some(KindView::Bool)
    } else {
        None
    }
}

proof fn lemma_type_literals()
    ensures
        "string"@ == seq!['s', 't', 'r', 'i', 'n', 'g'],
        "integer"@ == seq!['i', 'n', 't', 'e', 'g', 'e', 'r'],
        "number"@ == seq!['n', 'u', 'm', 'b', 'e', 'r'],
        "boolean"@ == seq!['b', 'o', 'o', 'l', 'e', 'a', 'n'],
        "object"@ == seq!['o', 'b', 'j', 'e', 'c', 't'],
        "array"@ == seq!['a', 'r', 'r', 'a', 'y'],
        "null"@ == seq!['n', 'u', 'l', 'l'],
        "string"@[0] == 's' && "integer"@[0] == 'i' && "number"@[0] == 'n' && "boolean"@[0] == 'b' && "object"@[0]
            == 'o' && "array"@[0] == 'a' && "null"@[1] == 'u' && "number"@[1] == 'u' && "null"@.len() == 4
            && "number"@.len() == 6,
{
    reveal_strlit("string");
    reveal_strlit("integer");
    reveal_strlit("number");
    reveal_strlit("boolean");
    reveal_strlit("object");
    reveal_strlit("array");
    reveal_strlit("null");
    assert("string"@ =~= seq!['s', 't', 'r', 'i', 'n', 'g']);
    assert("integer"@ =~= seq!['i', 'n', 't', 'e', 'g', 'e', 'r']);
    assert("number"@ =~= seq!['n', 'u', 'm', 'b', 'e', 'r']);
    assert("boolean"@ =~= seq!['b', 'o', 'o', 'l', 'e', 'a', 'n']);
    assert("object"@ =~= seq!['o', 'b', 'j', 'e', 'c', 't']);
    assert("array"@ =~= seq!['a', 'r', 'r', 'a', 'y']);
    assert("null"@ =~= seq!['n', 'u', 'l', 'l']);
}

/// A field whose schema (after following a `$ref`) names a scalar type,
/// with no `anyOf`, `oneOf` or `enum`, is a leaf of that kind holding the
/// value.
#[verifier::spinoff_prover]
#[verifier::rlimit(60)]
pub proof fn law_scalar_field_kind(key: Seq<char>, schema: Json, v: Json, defs: Entries, depth: usize, t: Seq<char>)
    requires
        get_array(crate::node::resolved(schema, defs), "anyOf"@) is None,
        get_array(crate::node::resolved(schema, defs), "oneOf"@) is None,
        get_array(crate::node::resolved(schema, defs), "enum"@) is None,
        get_str(crate::node::resolved(schema, defs), "type"@) == Some(t),
        scalar_kind_named(t) is Some,
    ensures
        built_node(key, schema, v, defs, depth).kind == scalar_kind_named(t)->Some_0,
        built_node(key, schema, v, defs, depth).value == v,
        built_node(key, schema, v, defs, depth).children.len() == 0,
{
    let r = crate::node::resolved(schema, defs);
    let descr = get_str(r, "description"@);
    let pn = crate::node::plain_node(key, r, v, defs, depth, descr);
    assert(crate::node::type_name_of(r) == t) by {
        reveal(crate::node::type_name_of);
    }
    assert(pn.kind == scalar_kind_named(t)->Some_0 && pn.value == v && pn.children.len() == 0) by {
        lemma_type_literals();
        if t == "string"@ {
        } else if t == "integer"@ {
        } else if t == "number"@ {
        } else {
            assert(t == "boolean"@);
        }
    }
    assert(built_node(key, schema, v, defs, depth) == pn) by {
        assert(get_array(r, "type"@) is None);
        assert(crate::node::variant_infos_of(r, defs) is None) by {
            reveal(crate::node::variant_infos_of);
        }
        assert(crate::node::checkbox_node(key, r, v, defs, depth, descr) is None) by {
            reveal(crate::node::checkbox_node);
            lemma_type_literals();
        }
    }
}

/// A field whose schema's `"type"` lists a scalar type name and then
/// `"null"` (and no `anyOf`) is a scalar optional of that kind, present
/// exactly when the value is not null, holding the value, with no
/// children.
#[verifier::spinoff_prover]
#[verifier::rlimit(60)]
pub proof fn law_type_list_optional_kind(key: Seq<char>, schema: Json, v: Json, defs: Entries, depth: usize, ta: Seq<Json>)
    requires
        get_array(crate::node::resolved(schema, defs), "anyOf"@) is None,
        get_array(crate::node::resolved(schema, defs), "type"@) == Some(ta),
        crate::node::strings_of(ta).len() == 2,
        crate::node::strings_of(ta)[1] == "null"@,
        scalar_kind_named(crate::node::strings_of(ta)[0]) is Some,
    ensures
        built_node(key, schema, v, defs, depth).kind == (KindView::Option {
            is_some: v != Json::Null,
            inner_kind: Some(Box::new(scalar_kind_named(crate::node::strings_of(ta)[0])->Some_0)),
        }),
        built_node(key, schema, v, defs, depth).value == v,
        built_node(key, schema, v, defs, depth).children.len() == 0,
{
    lemma_type_literals();
    let r = crate::node::resolved(schema, defs);
    let descr = get_str(r, "description"@);
    let types = crate::node::strings_of(ta);
    assert(types.contains("null"@)) by {
        assert(types[1] == "null"@);
    }
    assert(types[0] != "null"@);
    assert(crate::node::first_non_null_name(types) == Some(types[0]));
    let inner = Json::Object(seq![("type"@, Json::Str(types[0]))]);
    assert(get_str(inner, "type"@) == Some(types[0])) by {
        crate::json::lemma_first_index(seq![("type"@, Json::Str(types[0]))], "type"@, 0);
    }
    assert(crate::node::scalar_kind_of(inner) == scalar_kind_named(types[0])) by {
        reveal(crate::node::scalar_kind_of);
    }
    assert(crate::node::type_array_option_node(key, ta, v, depth, descr) == Some(
        NodeView {
            key,
            kind: KindView::Option { is_some: v != Json::Null, inner_kind: crate::node::boxed(scalar_kind_named(types[0])) },
            value: v,
            children: Seq::empty(),
            depth,
            description: descr,
            inner_schema: Some(inner),
        },
    )) by {
        reveal(crate::node::type_array_option_node);
    }
}

/// A field whose schema (after following a `$ref`) has type `"array"`
/// and `"items"` that list unit values in an `"enum"` (and no `anyOf`,
/// `oneOf` or `enum` of its own) is a checkbox list: one item per value,
/// in order, checked exactly when the field's value (an array) lists it.
#[verifier::spinoff_prover]
#[verifier::rlimit(60)]
pub proof fn law_checkbox_field(
    key: Seq<char>,
    schema: Json,
    v: Json,
    defs: Entries,
    depth: usize,
    items: Json,
    ea: Seq<Json>,
)
    requires
        get_array(crate::node::resolved(schema, defs), "anyOf"@) is None,
        get_array(crate::node::resolved(schema, defs), "oneOf"@) is None,
        get_array(crate::node::resolved(schema, defs), "enum"@) is None,
        get_str(crate::node::resolved(schema, defs), "type"@) == Some("array"@),
        json_get(crate::node::resolved(schema, defs), "items"@) == Some(items),
        get_array(crate::node::resolved(items, defs), "enum"@) == Some(ea),
        crate::node::strings_of(ea).len() > 0,
    ensures
        ({
            let n = built_node(key, schema, v, defs, depth);
            let names = crate::node::strings_of(ea);
            let listed = match v {
                Json::Array(a) => crate::node::strings_of(a),
                _ => Seq::empty(),
            };
            &&& n.kind == KindView::Checkboxes { variants: names }
            &&& n.value == v
            &&& n.children.len() == names.len()
            &&& forall|i: int|
                0 <= i < names.len() ==> (#[trigger] n.children[i]).key == names[i] && n.children[i].kind
                    == KindView::CheckboxItem { checked: listed.contains(names[i]) } && n.children[i].value == Json::Bool(
                    listed.contains(names[i]),
                )
        }),
{
    let r = crate::node::resolved(schema, defs);
    let descr = get_str(r, "description"@);
    let names = crate::node::strings_of(ea);
    assert(crate::node::enum_variants_of(crate::node::resolved(items, defs)) == Some(names)) by {
        reveal(crate::node::enum_variants_of);
    }
    let cb = crate::node::checkbox_node(key, r, v, defs, depth, descr);
    assert(cb is Some && cb->Some_0.kind == (KindView::Checkboxes { variants: names })) by {
        reveal(crate::node::checkbox_node);
    }
    assert(built_node(key, schema, v, defs, depth) == cb->Some_0) by {
        assert(get_array(r, "type"@) is None);
        assert(crate::node::variant_infos_of(r, defs) is None) by {
            reveal(crate::node::variant_infos_of);
        }
    }
    reveal(crate::node::checkbox_node);
}

/// A field whose schema (after following a `$ref`) lists unit values in
/// an `"enum"` (and has no `anyOf`, `oneOf` or `"type"` list) is a radio
/// group: one unit item per value, in order; the item the value names
/// is selected (a string names itself, any other value the empty name),
/// or the first when it names none.
#[verifier::spinoff_prover]
#[verifier::rlimit(60)]
pub proof fn law_enum_field(key: Seq<char>, schema: Json, v: Json, defs: Entries, depth: usize, ea: Seq<Json>)
    requires
        get_array(crate::node::resolved(schema, defs), "anyOf"@) is None,
        get_array(crate::node::resolved(schema, defs), "type"@) is None,
        get_array(crate::node::resolved(schema, defs), "oneOf"@) is None,
        get_array(crate::node::resolved(schema, defs), "enum"@) == Some(ea),
        crate::node::strings_of(ea).len() > 0,
        !(v is Object),
    ensures
        ({
            let n = built_node(key, schema, v, defs, depth);
            let names = crate::node::strings_of(ea);
            let named = match v {
                Json::Str(t) => t,
                _ => Seq::empty(),
            };
            let chosen = if names.contains(named) {
                named
            } else {
                names[0]
            };
            &&& n.kind == KindView::RadioGroup { variants: names }
            &&& n.value == v
            &&& n.children.len() == names.len()
            &&& forall|i: int|
                0 <= i < names.len() ==> (#[trigger] n.children[i]).key == names[i] && n.children[i].kind
                    == KindView::RadioItem { selected: names[i] == chosen, is_struct: false }
        }),
{
    reveal(crate::node::variant_infos_of);
    reveal(crate::node::current_variant);
    let r = crate::node::resolved(schema, defs);
    let descr = get_str(r, "description"@);
    let names = crate::node::strings_of(ea);
    let infos = crate::node::unit_infos(names);
    assert(crate::node::variant_infos_of(r, defs) == Some(infos));
    let en = crate::node::enum_node(key, r, v, defs, depth, descr);
    assert(built_node(key, schema, v, defs, depth) == en->Some_0) by {
        reveal(crate::node::type_array_option_node);
    }
    let cv = crate::node::chosen_variant(infos, v);
    assert(infos.map_values(|vi: (Seq<char>, Option<Json>)| vi.0) =~= names);
    let named = match v {
        Json::Str(t) => t,
        _ => Seq::empty(),
    };
    assert(crate::node::current_variant(v).0 == named);
    if names.contains(named) {
        let w = choose|w: int| 0 <= w < names.len() && names[w] == named;
        assert(infos[w].0 == named);
    } else if crate::node::names_variant(infos, named) {
        let w = choose|w: int| 0 <= w < infos.len() && (#[trigger] infos[w]).0 == named;
        assert(names[w] == infos[w].0);
    }
    lemma_radio_items(infos, cv.0, cv.1, defs, depth);
    let chosen = if names.contains(named) {
        named
    } else {
        names[0]
    };
    assert(cv.0 == chosen);
    let n = en->Some_0;
    assert forall|i: int| 0 <= i < names.len() implies (#[trigger] n.children[i]).key == names[i] && n.children[i].kind
        == KindView::RadioItem { selected: names[i] == chosen, is_struct: false } by {
        assert(infos[i] == (names[i], None::<Json>));
        assert(n.children[i] == crate::node::radio_item(infos[i], cv.0, cv.1, defs, depth));
    }
}

/// A field whose schema (after following a `$ref`) is `anyOf` of a
/// schema and a null schema is an optional, present exactly when the
/// value is not null, holding the value and that schema as its inner
/// schema. With a scalar inner type it is shown inline (that kind, no
/// children); with a struct inner type, when present, its children are
/// the struct's fields: each child's key is a property, and each
/// property has a child.
#[verifier::spinoff_prover]
#[verifier::rlimit(60)]
pub proof fn law_any_of_optional_field(key: Seq<char>, schema: Json, v: Json, defs: Entries, depth: usize, a: Seq<Json>)
    requires
        depth < crate::node::DEPTH_CAP,
        get_array(crate::node::resolved(schema, defs), "anyOf"@) == Some(a),
        a.len() == 2,
        crate::node::is_null_schema(a[1]),
        !crate::node::is_null_schema(a[0]),
    ensures
        ({
            let n = built_node(key, schema, v, defs, depth);
            let ri = crate::node::resolved(a[0], defs);
            &&& n.kind matches KindView::Option { is_some, .. } && is_some == (v != Json::Null)
            &&& n.value == v
            &&& n.inner_schema == Some(a[0])
            &&& (get_str(ri, "type"@) is Some && scalar_kind_named(get_str(ri, "type"@)->Some_0) is Some) ==> {
                &&& n.kind == KindView::Option {
                    is_some: v != Json::Null,
                    inner_kind: Some(Box::new(scalar_kind_named(get_str(ri, "type"@)->Some_0)->Some_0)),
                }
                &&& n.children.len() == 0
            }
            &&& (get_str(ri, "type"@) == Some("object"@) && get_object(ri, "properties"@) is Some && v != Json::Null)
                ==> {
                &&& n.kind == KindView::Option { is_some: true, inner_kind: None }
                &&& forall|i: int|
                    0 <= i < n.children.len() ==> obj_has(get_object(ri, "properties"@)->Some_0, (#[trigger] n.children[i]).key)
                &&& forall|k: Seq<char>|
                    obj_has(get_object(ri, "properties"@)->Some_0, k) ==> exists|i: int|
                        0 <= i < n.children.len() && (#[trigger] n.children[i]).key == k
            }
        }),
{
    lemma_type_literals();
    let r = crate::node::resolved(schema, defs);
    let descr = get_str(r, "description"@);
    let ri = crate::node::resolved(a[0], defs);
    assert(crate::node::first_non_null(a) == Some(a[0]));
    let on = crate::node::option_node(key, a, v, defs, depth, descr);
    assert(on is Some);
    assert(built_node(key, schema, v, defs, depth) == on->Some_0);
    let n = on->Some_0;
    assert(crate::node::scalar_kind_of(ri) == if get_str(ri, "type"@) is Some {
        scalar_kind_named(get_str(ri, "type"@)->Some_0)
    } else {
        None
    }) by {
        reveal(crate::node::scalar_kind_of);
    }
    if get_str(ri, "type"@) == Some("object"@) && get_object(ri, "properties"@) is Some && v != Json::Null {
        let p = get_object(ri, "properties"@)->Some_0;
        let d = (depth + 1) as usize;
        assert(n.children == crate::node::inner_children(ri, v, defs, d));
        assert(n.children == crate::node::built_children(p, ri, defs, json_as_object(v), d));
        reveal(crate::node::ordered_keys);
        let keys = crate::node::ordered_keys(p, ri);
        assert(n.children == built_fields(keys, p, defs, json_as_object(v), d));
        crate::round_trip::lemma_fields_keys(keys, p, defs, json_as_object(v), d);
        assert forall|k: Seq<char>| obj_has(p, k) implies exists|i: int|
            0 <= i < n.children.len() && (#[trigger] n.children[i]).key == k by {
            let w = choose|w: int| 0 <= w < p.len() && (#[trigger] p[w]).0 == k;
            assert(crate::node::entry_keys(p)[w] == k);
            lemma_add_missing_contains(
                match get_array(ri, "required"@) {
                    Some(ra) => crate::node::present_only(crate::node::strings_of(ra), p),
                    None => Seq::empty(),
                },
                crate::node::entry_keys(p),
                k,
            );
            assert(keys.contains(k));
        }
    }
}

} // verus!
