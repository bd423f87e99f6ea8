//! The editor state: the node tree, what is expanded and selected, the
//! edit buffer, and every operation on them.
use vstd::prelude::*;
use crate::json::{Json, JsonValue, json_entries_view, clone_entries};
use crate::node::{
    ConfigNode, NodeKind, NodeView, KindView, nodes_view, node_view, lemma_nodes_view,
    lemma_nodes_view_push, strs_view, contains_string, get_object_exec, build_tree, built_tree, Entries, DEPTH_CAP,
    inner_children, resolved, opt_str_view, ev, get_str_exec, build_tree_from_properties, build_node_pub,
    default_value, default_value_for_schema, clone_opt_json, resolve_schema,
};
use crate::text::{
    join_path, join_path_exec, byte_len, char_width, split_dots, parse_i64, i64_text, chars_of, char_width_exec,
    byte_len_exec, lemma_byte_len_monotone, parse_i64_exec, i64_to_string, string_of, last_dot, last_dot_exec,
    lemma_last_dot_bounds, string_from_chars, push_char, concat_strings, str_eq,
};
use crate::buffer::{
    cursor_ok, typed, backspaced, deleted, moved_left, moved_right, char_index_at, splice, lemma_take_all,
    lemma_typed, lemma_backspaced, lemma_deleted, lemma_moved_left, lemma_moved_right, lemma_byte_len_take_le,
};
use crate::paths::{
    update_at, with_value, path_parts, parts_from, set_in_nodes, with_radio_selected, select_radio_in_nodes,
    with_option_state, set_option_state_in_nodes, with_checked, with_checked_list, toggle_checkbox_in_nodes,
    rebuild_checkboxes_value,
};
use crate::value::{nodes_json, nodes_to_value};

verus! {

/// Whether the selected value is being edited as text.
#[derive(Debug, Clone, PartialEq, Eq)]
pub enum EditMode {
    Normal,
    /// `cursor_pos` is a byte offset into `buffer`, on a character boundary.
    Editing { buffer: String, cursor_pos: usize },
}

/// A visible node of the flattened tree, with its dotted path and its
/// index in the flat list.
pub struct VisibleNode<'a> {
    pub node: &'a ConfigNode,
    pub path: String,
    pub flat_index: usize,
}

/// Decides, by dotted path, which nodes are shown and which are editable.
/// Implementations answer the same for the same path.
pub trait NodeFilter {
    spec fn spec_visible(&self, path: Seq<char>) -> bool;

    spec fn spec_enabled(&self, path: Seq<char>) -> bool;

    /// Whether the node at `path` (and its subtree) is shown.
    fn visible(&self, path: &str) -> (b: bool)
        ensures
            b == self.spec_visible(path@),
    ;

    /// Whether the node at `path` may be changed.
    fn enabled(&self, path: &str) -> (b: bool)
        ensures
            b == self.spec_enabled(path@),
    ;
}

/// A filter given by lists of paths: the hidden ones (with their
/// subtrees) and the shown but read-only ones.
pub struct PathFilter {
    pub hidden: Vec<String>,
    pub read_only: Vec<String>,
}

impl NodeFilter for PathFilter {
    open spec fn spec_visible(&self, path: Seq<char>) -> bool {
        !strs_view(self.hidden@).contains(path)
    }

    open spec fn spec_enabled(&self, path: Seq<char>) -> bool {
        !strs_view(self.read_only@).contains(path)
    }

    fn visible(&self, path: &str) -> (b: bool) {
        !contains_string(&self.hidden, path)
    }

    fn enabled(&self, path: &str) -> (b: bool) {
        !contains_string(&self.read_only, path)
    }
}

/// The editor state: the node tree, the expanded paths, the selected row,
/// the edit mode and the scroll position.
pub struct TreeState {
    pub nodes: Vec<ConfigNode>,
    /// The paths of the expanded nodes; each at most once.
    pub expanded: Vec<String>,
    pub selected: usize,
    pub edit_mode: EditMode,
    pub scroll_offset: usize,
    /// Set by the widget during rendering: where the terminal cursor goes
    /// in edit mode.
    pub cursor_position: Option<(u16, u16)>,
    /// The `$defs` of the root schema, for resolving references.
    pub defs: Vec<(String, JsonValue)>,
    pub filter: Option<Box<dyn NodeFilter>>,
}

// ---------------------------------------------------------------------
// Views
// ---------------------------------------------------------------------

pub open spec fn set_of(s: Seq<Seq<char>>) -> Set<Seq<char>> {
    Set::new(|q: Seq<char>| s.contains(q))
}

/// The set of expanded paths.
pub open spec fn exp_set(e: Seq<String>) -> Set<Seq<char>> {
    set_of(strs_view(e))
}

/// No path occurs twice.
pub open spec fn no_dups(e: Seq<String>) -> bool {
    forall|i: int, j: int| 0 <= i < j < e.len() ==> (#[trigger] e[i])@ != (#[trigger] e[j])@
}

/// Whether no path occurs twice in `e`.
pub fn no_dups_exec(e: &Vec<String>) -> (r: bool)
    ensures
        r == no_dups(e@),
{
    let mut i: usize = 0;
    while i < e.len()
        invariant
            i <= e@.len(),
            forall|a: int, b: int| 0 <= a < i && a < b < e@.len() ==> (#[trigger] e@[a])@ != (#[trigger] e@[b])@,
        decreases e@.len() - i,
    {
        let mut j: usize = i + 1;
        while j < e.len()
            invariant
                i < e@.len(),
                i + 1 <= j <= e@.len(),
                forall|a: int, b: int| 0 <= a < i && a < b < e@.len() ==> (#[trigger] e@[a])@ != (#[trigger] e@[b])@,
                forall|b: int| i < b < j ==> e@[i as int]@ != (#[trigger] e@[b])@,
            decreases e@.len() - j,
        {
            if crate::text::str_eq(e[i].as_str(), e[j].as_str()) {
                return false;
            }
            j = j + 1;
        }
        i = i + 1;
    }
    true
}

/// Which paths the filter shows.
pub open spec fn shows_of(f: Option<Box<dyn NodeFilter>>) -> spec_fn(Seq<char>) -> bool {
    |p: Seq<char>|
        match f {
            Some(b) => b.spec_visible(p),
            None => true,
        }
}

/// Which paths the filter lets change.
pub open spec fn enabled_by(f: Option<Box<dyn NodeFilter>>, p: Seq<char>) -> bool {
    match f {
        Some(b) => b.spec_enabled(p),
        None => true,
    }
}

/// The buffer and cursor of an edit, or none in normal mode.
pub open spec fn edit_view(m: EditMode) -> Option<(Seq<char>, nat)> {
    match m {
        EditMode::Normal => None,
        EditMode::Editing { buffer, cursor_pos } => Some((buffer@, cursor_pos as nat)),
    }
}

/// In edit mode, the cursor stands between characters.
pub open spec fn edit_ok(m: EditMode) -> bool {
    match edit_view(m) {
        None => true,
        Some(e) => cursor_ok(e.0, e.1),
    }
}

/// The flattened visible tree: each shown node with its path; the
/// children of an expanded node follow it. A hidden node hides its
/// subtree.
pub open spec fn vis(
    nodes: Seq<NodeView>,
    prefix: Seq<char>,
    expanded: Set<Seq<char>>,
    shows: spec_fn(Seq<char>) -> bool,
) -> Seq<(NodeView, Seq<char>)>
    decreases nodes,
{
    if nodes.len() == 0 {
        Seq::empty()
    } else {
        vis(nodes.drop_last(), prefix, expanded, shows) + vis_one(nodes.last(), prefix, expanded, shows)
    }
}

pub open spec fn vis_one(
    n: NodeView,
    prefix: Seq<char>,
    expanded: Set<Seq<char>>,
    shows: spec_fn(Seq<char>) -> bool,
) -> Seq<(NodeView, Seq<char>)>
    decreases n,
{
    let path = join_path(prefix, n.key);
    if !shows(path) {
        Seq::empty()
    } else if expanded.contains(path) && n.children.len() > 0 {
        seq![(n, path)] + vis(n.children, path, expanded, shows)
    } else {
        seq![(n, path)]
    }
}

pub open spec fn vn_views<'a>(s: Seq<VisibleNode<'a>>) -> Seq<(NodeView, Seq<char>)> {
    s.map_values(|v: VisibleNode<'a>| (node_view(*v.node), v.path@))
}

/// The paths expanded when a tree is first shown: containers, present
/// optionals and selected struct variants with fields, at every level.
pub open spec fn exp_paths(nodes: Seq<NodeView>, prefix: Seq<char>) -> Seq<Seq<char>>
    decreases nodes,
{
    if nodes.len() == 0 {
        Seq::empty()
    } else {
        exp_paths(nodes.drop_last(), prefix) + exp_paths_one(nodes.last(), prefix)
    }
}

pub open spec fn starts_expanded(n: NodeView) -> bool {
    match n.kind {
        KindView::Struct { .. } | KindView::RadioGroup { .. } | KindView::Checkboxes { .. } => true,
        KindView::Option { is_some, .. } => is_some,
        KindView::RadioItem { selected, is_struct } => selected && is_struct && n.children.len() > 0,
        _ => false,
    }
}

pub open spec fn exp_paths_one(n: NodeView, prefix: Seq<char>) -> Seq<Seq<char>>
    decreases n,
{
    let path = join_path(prefix, n.key);
    if starts_expanded(n) {
        seq![path] + exp_paths(n.children, path)
    } else {
        Seq::empty()
    }
}

impl TreeState {
    /// The state is well formed: no expanded path twice, and an edit
    /// cursor between characters.
    pub open spec fn wf(&self) -> bool {
        &&& no_dups(self.expanded@)
        &&& edit_ok(self.edit_mode)
    }

    pub open spec fn tree(&self) -> Seq<NodeView> {
        nodes_view(self.nodes@)
    }

    pub open spec fn expanded_set(&self) -> Set<Seq<char>> {
        exp_set(self.expanded@)
    }

    pub open spec fn shows(&self) -> spec_fn(Seq<char>) -> bool {
        shows_of(self.filter)
    }

    pub open spec fn allows(&self, path: Seq<char>) -> bool {
        enabled_by(self.filter, path)
    }

    pub open spec fn defs_view(&self) -> Seq<(Seq<char>, Json)> {
        json_entries_view(self.defs@)
    }

    /// The visible nodes, in display order, with their paths.
    pub open spec fn visible_list(&self) -> Seq<(NodeView, Seq<char>)> {
        vis(self.tree(), Seq::empty(), self.expanded_set(), self.shows())
    }

    /// The selected visible node and its path, if the selection is in range.
    pub open spec fn selected_entry(&self) -> Option<(NodeView, Seq<char>)> {
        if self.selected < self.visible_list().len() {
            Some(self.visible_list()[self.selected as int])
        } else {
            None
        }
    }
}

// ---------------------------------------------------------------------
// Expanded paths
// ---------------------------------------------------------------------

pub proof fn lemma_set_of_push(s: Seq<Seq<char>>, x: Seq<char>)
    ensures
        set_of(s.push(x)) == set_of(s).insert(x),
{
    assert forall|q: Seq<char>| #[trigger] set_of(s.push(x)).contains(q) == set_of(s).insert(x).contains(q) by {
        if s.push(x).contains(q) {
            let j = choose|j: int| 0 <= j < s.push(x).len() && s.push(x)[j] == q;
            if j < s.len() {
                assert(s[j] == q);
            }
        }
        if s.contains(q) {
            let j = choose|j: int| 0 <= j < s.len() && s[j] == q;
            assert(s.push(x)[j] == q);
        }
        if q == x {
            assert(s.push(x)[s.len() as int] == x);
        }
    }
    assert(set_of(s.push(x)) =~= set_of(s).insert(x));
}

/// Adds `path` to the expanded set, if it is not there yet.
pub fn expanded_insert(e: &mut Vec<String>, path: String)
    requires
        no_dups(old(e)@),
    ensures
        no_dups(final(e)@),
        exp_set(final(e)@) == exp_set(old(e)@).insert(path@),
{
    if !contains_string(e, path.as_str()) {
        let ghost before = e@;
        e.push(path);
        proof {
            assert(strs_view(e@) =~= strs_view(before).push(path@));
            lemma_set_of_push(strs_view(before), path@);
            assert forall|i: int, j: int| 0 <= i < j < e@.len() implies (#[trigger] e@[i])@ != (#[trigger] e@[j])@ by {
                if j == e@.len() - 1 {
                    assert(strs_view(before)[i] == e@[i]@);
                }
            }
        }
    } else {
        proof {
            assert(exp_set(e@) =~= exp_set(e@).insert(path@));
        }
    }
}

/// Removes `path` from the expanded set.
pub fn expanded_remove(e: &mut Vec<String>, path: &str)
    requires
        no_dups(old(e)@),
    ensures
        no_dups(final(e)@),
        exp_set(final(e)@) == exp_set(old(e)@).remove(path@),
{
    let mut i: usize = 0;
    while i < e.len()
        invariant
            i <= e@.len(),
            e@ == old(e)@,
            no_dups(e@),
            forall|j: int| 0 <= j < i ==> (#[trigger] e@[j])@ != path@,
        decreases e@.len() - i,
    {
        if crate::text::str_eq(e[i].as_str(), path) {
            let ghost before = e@;
            e.remove(i);
            proof {
                assert forall|q: Seq<char>| #[trigger] exp_set(e@).contains(q) == exp_set(before).remove(path@).contains(q) by {
                    if strs_view(e@).contains(q) {
                        let j = choose|j: int| 0 <= j < strs_view(e@).len() && strs_view(e@)[j] == q;
                        if j < i {
                            assert(strs_view(before)[j] == q);
                        } else {
                            assert(strs_view(before)[j + 1] == q);
                            assert(before[j + 1]@ != before[i as int]@);
                        }
                    }
                    if strs_view(before).contains(q) && q != path@ {
                        let j = choose|j: int| 0 <= j < strs_view(before).len() && strs_view(before)[j] == q;
                        if j < i {
                            assert(strs_view(e@)[j] == q);
                        } else {
                            assert(j != i);
                            assert(strs_view(e@)[j - 1] == q);
                        }
                    }
                }
                assert(exp_set(e@) =~= exp_set(before).remove(path@));
                assert forall|a: int, b: int| 0 <= a < b < e@.len() implies (#[trigger] e@[a])@ != (#[trigger] e@[b])@ by {
                    let a2 = if a < i { a } else { a + 1 };
                    let b2 = if b < i { b } else { b + 1 };
                    assert(e@[a] == before[a2]);
                    assert(e@[b] == before[b2]);
                }
            }
            return;
        }
        i = i + 1;
    }
    proof {
        assert forall|q: Seq<char>| #[trigger] exp_set(e@).contains(q) == exp_set(e@).remove(path@).contains(q) by {
            if q == path@ && strs_view(e@).contains(q) {
                let j = choose|j: int| 0 <= j < strs_view(e@).len() && strs_view(e@)[j] == q;
                assert(e@[j]@ == q);
            }
        }
        assert(exp_set(e@) =~= exp_set(e@).remove(path@));
    }
}

/// Whether `path` is expanded.
pub fn expanded_contains(e: &Vec<String>, path: &str) -> (r: bool)
    ensures
        r == exp_set(e@).contains(path@),
{
    contains_string(e, path)
}

/// Adds the initially expanded paths of `nodes` (see `exp_paths`).
fn collect_expanded_paths(nodes: &Vec<ConfigNode>, prefix: &str, expanded: &mut Vec<String>)
    requires
        no_dups(old(expanded)@),
    ensures
        no_dups(final(expanded)@),
        exp_set(final(expanded)@) == exp_set(old(expanded)@) + set_of(exp_paths(nodes_view(nodes@), prefix@)),
    decreases nodes,
{
    let ghost nv = nodes_view(nodes@);
    let ghost start = exp_set(expanded@);
    proof {
        lemma_nodes_view(nodes@);
        assert(set_of(exp_paths(nv.take(0), prefix@)) =~= Set::<Seq<char>>::empty());
        assert(start + Set::<Seq<char>>::empty() =~= start);
    }
    let mut i: usize = 0;
    while i < nodes.len()
        invariant
            i <= nodes@.len(),
            nv == nodes_view(nodes@),
            nv.len() == nodes@.len(),
            forall|j: int| 0 <= j < nodes@.len() ==> #[trigger] nv[j] == node_view(nodes@[j]),
            no_dups(expanded@),
            exp_set(expanded@) == start + set_of(exp_paths(nv.take(i as int), prefix@)),
        decreases nodes@.len() - i,
    {
        let node = &nodes[i];
        let path = join_path_exec(prefix, node.key.as_str());
        let is_exp = match &node.kind {
            NodeKind::Struct { .. } | NodeKind::RadioGroup { .. } | NodeKind::Checkboxes { .. } => true,
            NodeKind::Option { is_some, .. } => *is_some,
            NodeKind::RadioItem { selected, is_struct } => *selected && *is_struct && node.children.len() > 0,
            _ => false,
        };
        let ghost before = exp_set(expanded@);
        proof {
            lemma_nodes_view(node.children@);
            assert(starts_expanded(nv[i as int]) == is_exp);
            assert(nv.take(i + 1).drop_last() =~= nv.take(i as int));
            assert(nv.take(i + 1).last() == nv[i as int]);
        }
        if is_exp {
            expanded_insert(expanded, path.clone());
            proof {
                assert(decreases_to!(nodes => nodes@));
                assert(decreases_to!(nodes@ => nodes@[i as int]));
                assert(decreases_to!(nodes@[i as int] => nodes@[i as int].children));
            }
            collect_expanded_paths(&node.children, path.as_str(), expanded);
        }
        proof {
            let a = exp_paths(nv.take(i as int), prefix@);
            let b = exp_paths_one(nv[i as int], prefix@);
            assert(exp_paths(nv.take(i + 1), prefix@) == a + b);
            assert forall|q: Seq<char>| #[trigger] set_of(a + b).contains(q) == (set_of(a) + set_of(b)).contains(q) by {
                if (a + b).contains(q) {
                    let j = choose|j: int| 0 <= j < (a + b).len() && (a + b)[j] == q;
                    if j < a.len() {
                        assert(a[j] == q);
                    } else {
                        assert(b[j - a.len()] == q);
                    }
                }
                if a.contains(q) {
                    let j = choose|j: int| 0 <= j < a.len() && a[j] == q;
                    assert((a + b)[j] == q);
                }
                if b.contains(q) {
                    let j = choose|j: int| 0 <= j < b.len() && b[j] == q;
                    assert((a + b)[j + a.len()] == q);
                }
            }
            assert(set_of(a + b) =~= set_of(a) + set_of(b));
            if is_exp {
                let c = exp_paths(nv[i as int].children, path@);
                assert(b == seq![path@] + c);
                assert forall|q: Seq<char>| #[trigger] set_of(seq![path@] + c).contains(q) == set_of(c).insert(path@).contains(q) by {
                    if (seq![path@] + c).contains(q) {
                        let j = choose|j: int| 0 <= j < (seq![path@] + c).len() && (seq![path@] + c)[j] == q;
                        if j > 0 {
                            assert(c[j - 1] == q);
                        }
                    }
                    if c.contains(q) {
                        let j = choose|j: int| 0 <= j < c.len() && c[j] == q;
                        assert((seq![path@] + c)[j + 1] == q);
                    }
                    if q == path@ {
                        assert((seq![path@] + c)[0] == q);
                    }
                }
                assert(set_of(seq![path@] + c) =~= set_of(c).insert(path@));
                assert(exp_set(expanded@) =~= start + set_of(a + b));
            } else {
                assert(b =~= Seq::<Seq<char>>::empty());
                assert(set_of(b) =~= Set::<Seq<char>>::empty());
                assert(exp_set(expanded@) =~= start + set_of(a + b));
            }
        }
        i = i + 1;
    }
    proof {
        assert(nv.take(nodes@.len() as int) =~= nv);
    }
}

// ---------------------------------------------------------------------
// The visible list
// ---------------------------------------------------------------------

/// Whether the filter shows `path`.
pub fn filter_shows(filter: &Option<Box<dyn NodeFilter>>, path: &str) -> (b: bool)
    ensures
        b == (shows_of(*filter))(path@),
{
    match filter {
        Some(f) => f.visible(path),
        None => true,
    }
}

/// Whether the filter lets `path` change.
pub fn filter_enabled(filter: &Option<Box<dyn NodeFilter>>, path: &str) -> (b: bool)
    ensures
        b == enabled_by(*filter, path@),
{
    match filter {
        Some(f) => f.enabled(path),
        None => true,
    }
}

/// Appends the visible nodes of `nodes` (see `vis`).
fn collect_visible<'a>(
    nodes: &'a Vec<ConfigNode>,
    prefix: &str,
    expanded: &Vec<String>,
    filter: &Option<Box<dyn NodeFilter>>,
    result: &mut Vec<VisibleNode<'a>>,
)
    requires
        forall|k: int| 0 <= k < old(result)@.len() ==> (#[trigger] old(result)@[k]).flat_index == k,
    ensures
        vn_views(final(result)@) == vn_views(old(result)@) + vis(nodes_view(nodes@), prefix@, exp_set(expanded@), shows_of(*filter)),
        forall|k: int| 0 <= k < final(result)@.len() ==> (#[trigger] final(result)@[k]).flat_index == k,
    decreases nodes,
{
    let ghost nv = nodes_view(nodes@);
    let ghost start = vn_views(result@);
    let ghost ex = exp_set(expanded@);
    let ghost sh = shows_of(*filter);
    proof {
        lemma_nodes_view(nodes@);
        assert(vis(nv.take(0), prefix@, ex, sh) =~= Seq::<(NodeView, Seq<char>)>::empty());
        assert(start + Seq::<(NodeView, Seq<char>)>::empty() =~= start);
    }
    let mut i: usize = 0;
    while i < nodes.len()
        invariant
            i <= nodes@.len(),
            nv == nodes_view(nodes@),
            nv.len() == nodes@.len(),
            forall|j: int| 0 <= j < nodes@.len() ==> #[trigger] nv[j] == node_view(nodes@[j]),
            ex == exp_set(expanded@),
            sh == shows_of(*filter),
            vn_views(result@) == start + vis(nv.take(i as int), prefix@, ex, sh),
            forall|k: int| 0 <= k < result@.len() ==> (#[trigger] result@[k]).flat_index == k,
        decreases nodes@.len() - i,
    {
        let node = &nodes[i];
        let path = join_path_exec(prefix, node.key.as_str());
        let ghost before = vn_views(result@);
        proof {
            lemma_nodes_view(node.children@);
            assert(nv.take(i + 1).drop_last() =~= nv.take(i as int));
            assert(nv.take(i + 1).last() == nv[i as int]);
        }
        if filter_shows(filter, path.as_str()) {
            let idx = result.len();
            let ghost before_r = result@;
            result.push(VisibleNode { node, path: path.clone(), flat_index: idx });
            proof {
                assert(vn_views(result@) =~= before.push((nv[i as int], path@)));
            }
            let is_expanded = expanded_contains(expanded, path.as_str());
            if is_expanded && node.children.len() > 0 {
                proof {
                    assert(decreases_to!(nodes => nodes@));
                    assert(decreases_to!(nodes@ => nodes@[i as int]));
                    assert(decreases_to!(nodes@[i as int] => nodes@[i as int].children));
                }
                let ghost mid = vn_views(result@);
                collect_visible(&node.children, path.as_str(), expanded, filter, result);
                proof {
                    assert(vis_one(nv[i as int], prefix@, ex, sh) == seq![(nv[i as int], path@)] + vis(nv[i as int].children, path@, ex, sh));
                    assert(vn_views(result@) =~= start + vis(nv.take(i + 1), prefix@, ex, sh));
                }
            } else {
                proof {
                    assert(vis_one(nv[i as int], prefix@, ex, sh) == seq![(nv[i as int], path@)]);
                    assert(vn_views(result@) =~= start + vis(nv.take(i + 1), prefix@, ex, sh));
                }
            }
        } else {
            proof {
                assert(vis_one(nv[i as int], prefix@, ex, sh) =~= Seq::<(NodeView, Seq<char>)>::empty());
                assert(vn_views(result@) =~= start + vis(nv.take(i + 1), prefix@, ex, sh));
            }
        }
        i = i + 1;
    }
    proof {
        assert(nv.take(nodes@.len() as int) =~= nv);
    }
}


// ---------------------------------------------------------------------
// Construction, filter, navigation
// ---------------------------------------------------------------------

/// Nodes that can be expanded whatever their children.
pub open spec fn is_container(k: KindView) -> bool {
    match k {
        KindView::Struct { .. } | KindView::RadioGroup { .. } | KindView::Checkboxes { .. } => true,
        KindView::Option { is_some, .. } => is_some,
        _ => false,
    }
}

/// A node that expanding applies to: it has children or is a container.
pub open spec fn expandable(n: NodeView) -> bool {
    n.children.len() > 0 || is_container(n.kind)
}

/// Whether a node of kind `k` can be expanded whatever its children.
pub fn kind_is_container(k: &NodeKind) -> (b: bool)
    ensures
        b == is_container(k@),
{
    match k {
        NodeKind::Struct { .. } | NodeKind::RadioGroup { .. } | NodeKind::Checkboxes { .. } => true,
        NodeKind::Option { is_some, .. } => *is_some,
        _ => false,
    }
}

/// The definitions of a root schema: its `"$defs"` object, or none.
pub open spec fn root_defs(schema: Json) -> Seq<(Seq<char>, Json)> {
    match crate::json::get_object(schema, "$defs"@) {
        Some(d) => d,
        None => Seq::empty(),
    }
}

impl TreeState {
    /// Everything but the expanded set is the same in `self` and `other`.
    pub open spec fn same_but_expanded(&self, other: &TreeState) -> bool {
        &&& self.nodes@ == other.nodes@
        &&& self.selected == other.selected
        &&& self.edit_mode == other.edit_mode
        &&& self.scroll_offset == other.scroll_offset
        &&& self.cursor_position == other.cursor_position
        &&& self.defs@ == other.defs@
        &&& self.filter == other.filter
    }

    /// Everything but the selection is the same in `self` and `other`.
    pub open spec fn same_but_selected(&self, other: &TreeState) -> bool {
        &&& self.nodes@ == other.nodes@
        &&& self.expanded@ == other.expanded@
        &&& self.edit_mode == other.edit_mode
        &&& self.scroll_offset == other.scroll_offset
        &&& self.cursor_position == other.cursor_position
        &&& self.defs@ == other.defs@
        &&& self.filter == other.filter
    }

    /// Everything but the edit mode is the same in `self` and `other`.
    pub open spec fn same_but_edit(&self, other: &TreeState) -> bool {
        &&& self.nodes@ == other.nodes@
        &&& self.expanded@ == other.expanded@
        &&& self.selected == other.selected
        &&& self.scroll_offset == other.scroll_offset
        &&& self.cursor_position == other.cursor_position
        &&& self.defs@ == other.defs@
        &&& self.filter == other.filter
    }

    /// Whether the state is well formed: no expanded path occurs twice,
    /// and an edit cursor lies on a character boundary of its buffer.
    pub fn is_well_formed(&self) -> (r: bool)
        ensures
            r == self.wf(),
    {
        let cursor_fine = match &self.edit_mode {
            EditMode::Editing { buffer, cursor_pos } => crate::buffer::cursor_ok_exec(buffer.as_str(), *cursor_pos),
            EditMode::Normal => true,
        };
        cursor_fine && no_dups_exec(&self.expanded)
    }

    /// Builds the state for a root schema and a config value: the tree of
    /// `build_tree`, containers expanded, the first node selected.
    pub fn new(schema: &JsonValue, value: &JsonValue) -> (s: TreeState)
        ensures
            s.wf(),
            s.tree() == built_tree(schema@, value@),
            s.expanded_set() == set_of(exp_paths(built_tree(schema@, value@), Seq::empty())),
            s.selected == 0,
            s.edit_mode == EditMode::Normal,
            s.scroll_offset == 0,
            s.cursor_position is None,
            s.defs_view() == root_defs(schema@),
            s.filter is None,
    {
        let defs = match get_object_exec(schema, "$defs") {
            Some(d) => clone_entries(d),
            None => Vec::new(),
        };
        proof {
            assert(json_entries_view(Seq::<(String, JsonValue)>::empty()) =~= Seq::<(Seq<char>, Json)>::empty());
        }
        let nodes = build_tree(schema, value);
        let mut expanded: Vec<String> = Vec::new();
        proof {
            assert(exp_set(expanded@) =~= Set::<Seq<char>>::empty());
        }
        collect_expanded_paths(&nodes, "", &mut expanded);
        proof {
            reveal_strlit("");
            assert(""@ =~= Seq::<char>::empty());
            assert(Set::<Seq<char>>::empty() + set_of(exp_paths(nodes_view(nodes@), ""@)) =~= set_of(exp_paths(nodes_view(nodes@), Seq::empty())));
        }
        TreeState {
            nodes,
            expanded,
            selected: 0,
            edit_mode: EditMode::Normal,
            scroll_offset: 0,
            cursor_position: None,
            defs,
            filter: None,
        }
    }

    /// Sets the filter that decides which nodes are visible and editable.
    pub fn set_filter(&mut self, filter: Box<dyn NodeFilter>)
        ensures
            final(self).filter == Some(filter),
            forall|p: Seq<char>| (#[trigger] (final(self).shows())(p)) == filter.spec_visible(p),
            forall|p: Seq<char>| #[trigger] final(self).allows(p) == filter.spec_enabled(p),
            final(self).nodes@ == old(self).nodes@,
            final(self).expanded@ == old(self).expanded@,
            final(self).selected == old(self).selected,
            final(self).edit_mode == old(self).edit_mode,
            final(self).scroll_offset == old(self).scroll_offset,
            final(self).cursor_position == old(self).cursor_position,
            final(self).defs@ == old(self).defs@,
    {
        let installed = Some(filter);
        self.filter = installed;
    }

    /// Removes the filter: every node is visible and editable.
    pub fn clear_filter(&mut self)
        ensures
            final(self).filter is None,
            forall|p: Seq<char>| (#[trigger] (final(self).shows())(p)),
            forall|p: Seq<char>| #[trigger] final(self).allows(p),
            final(self).nodes@ == old(self).nodes@,
            final(self).expanded@ == old(self).expanded@,
            final(self).selected == old(self).selected,
            final(self).edit_mode == old(self).edit_mode,
            final(self).scroll_offset == old(self).scroll_offset,
            final(self).cursor_position == old(self).cursor_position,
            final(self).defs@ == old(self).defs@,
    {
        self.filter = None;
    }

    /// The visible nodes in display order, with their paths and flat indices.
    pub fn visible_nodes(&self) -> (r: Vec<VisibleNode<'_>>)
        ensures
            vn_views(r@) == self.visible_list(),
            forall|k: int| 0 <= k < r@.len() ==> (#[trigger] r@[k]).flat_index == k,
    {
        let mut result: Vec<VisibleNode<'_>> = Vec::new();
        proof {
            assert(vn_views(result@) =~= Seq::<(NodeView, Seq<char>)>::empty());
        }
        collect_visible(&self.nodes, "", &self.expanded, &self.filter, &mut result);
        proof {
            reveal_strlit("");
            assert(""@ =~= Seq::<char>::empty());
            assert(Seq::<(NodeView, Seq<char>)>::empty() + vis(self.tree(), ""@, self.expanded_set(), self.shows()) =~= self.visible_list());
        }
        result
    }

    /// Whether the node at `path` may be changed.
    pub fn is_enabled(&self, path: &str) -> (b: bool)
        ensures
            b == self.allows(path@),
    {
        filter_enabled(&self.filter, path)
    }

    /// What `select_prev` does: it moves the selection up one row.
    pub open spec fn selects_prev(&self, new: TreeState) -> bool {
        &&& new.selected == if self.selected > 0 { (self.selected - 1) as usize } else { self.selected }
        &&& new.same_but_selected(self)
    }

    /// Moves the selection one row up, stopping at the first row.
    pub fn select_prev(&mut self)
        requires
            old(self).wf(),
        ensures
            final(self).wf(),
            old(self).selects_prev(*final(self)),
    {
        if self.selected > 0 {
            self.selected = self.selected - 1;
        }
    }

    /// What `select_next` does: it moves the selection down one row, within the visible rows.
    pub open spec fn selects_next(&self, new: TreeState) -> bool {
        &&& new.selected == if self.selected + 1 < self.visible_list().len() {
            (self.selected + 1) as usize
        } else {
            self.selected
        }
        &&& new.same_but_selected(self)
    }

    /// Moves the selection one row down, stopping at the last visible row.
    pub fn select_next(&mut self)
        requires
            old(self).wf(),
        ensures
            final(self).wf(),
            old(self).selects_next(*final(self)),
    {
        let count = self.visible_nodes().len();
        if count > 0 && self.selected < count - 1 {
            self.selected = self.selected + 1;
        }
    }

    /// The selected node's path, when it is expandable.
    fn selected_expandable_path(&self) -> (r: Option<String>)
        ensures
            match self.selected_entry() {
                Some(e) => if expandable(e.0) {
                    r matches Some(p) && p@ == e.1
                } else {
                    r is None
                },
                None => r is None,
            },
    {
        let visible = self.visible_nodes();
        proof {
            assert(visible@.len() == self.visible_list().len());
        }
        if self.selected < visible.len() {
            let vn = &visible[self.selected];
            proof {
                assert(vn_views(visible@)[self.selected as int] == (node_view(*vn.node), vn.path@));
                lemma_nodes_view(vn.node.children@);
            }
            let has_children = vn.node.children.len() > 0;
            let is_container = kind_is_container(&vn.node.kind);
            if has_children || is_container {
                return Some(vn.path.clone());
            }
        }
        None
    }

    /// What `toggle_expand` does: it expands or collapses the selected node.
    pub open spec fn toggles_expand(&self, new: TreeState) -> bool {
        &&& new.same_but_expanded(self)
        &&& new.expanded_set() == match self.selected_entry() {
            Some(e) => if expandable(e.0) {
                if self.expanded_set().contains(e.1) {
                    self.expanded_set().remove(e.1)
                } else {
                    self.expanded_set().insert(e.1)
                }
            } else {
                self.expanded_set()
            },
            None => self.expanded_set(),
        }
    }

    /// Expands or collapses the selected node, if it is expandable.
    pub fn toggle_expand(&mut self)
        requires
            old(self).wf(),
        ensures
            final(self).wf(),
            old(self).toggles_expand(*final(self)),
    {
        if let Some(path) = self.selected_expandable_path() {
            if expanded_contains(&self.expanded, path.as_str()) {
                expanded_remove(&mut self.expanded, path.as_str());
            } else {
                expanded_insert(&mut self.expanded, path);
            }
        }
    }

    /// What `expand_selected` does: it expands the selected node.
    pub open spec fn expands_selected(&self, new: TreeState) -> bool {
        &&& new.same_but_expanded(self)
        &&& new.expanded_set() == match self.selected_entry() {
            Some(e) => if expandable(e.0) {
                self.expanded_set().insert(e.1)
            } else {
                self.expanded_set()
            },
            None => self.expanded_set(),
        }
    }

    /// Expands the selected node, if it is expandable.
    pub fn expand_selected(&mut self)
        requires
            old(self).wf(),
        ensures
            final(self).wf(),
            old(self).expands_selected(*final(self)),
    {
        if let Some(path) = self.selected_expandable_path() {
            expanded_insert(&mut self.expanded, path);
        }
    }

    /// What `collapse_selected` does: it collapses the selected node.
    pub open spec fn collapses_selected(&self, new: TreeState) -> bool {
        &&& new.same_but_expanded(self)
        &&& new.expanded_set() == match self.selected_entry() {
            Some(e) => self.expanded_set().remove(e.1),
            None => self.expanded_set(),
        }
    }

    /// Collapses the selected node.
    pub fn collapse_selected(&mut self)
        requires
            old(self).wf(),
        ensures
            final(self).wf(),
            old(self).collapses_selected(*final(self)),
    {
        let visible = self.visible_nodes();
        if self.selected < visible.len() {
            let path = visible[self.selected].path.clone();
            proof {
                assert(vn_views(visible@)[self.selected as int].1 == path@);
            }
            expanded_remove(&mut self.expanded, path.as_str());
        }
    }

    /// What `cancel_edit` does: it leaves edit mode.
    pub open spec fn cancels_edit(&self, new: TreeState) -> bool {
        &&& new.edit_mode == EditMode::Normal
        &&& new.same_but_edit(self)
    }

    /// Leaves edit mode, dropping the buffer.
    pub fn cancel_edit(&mut self)
        requires
            old(self).wf(),
        ensures
            final(self).wf(),
            old(self).cancels_edit(*final(self)),
    {
        self.edit_mode = EditMode::Normal;
    }
}
// ---------------------------------------------------------------------
// Editing values
// ---------------------------------------------------------------------

/// The kind an edit works on: the inner kind of a present scalar
/// optional, else the node's own kind.
pub open spec fn effective_kind(k: KindView) -> KindView {
    match k {
        KindView::Option { is_some: true, inner_kind: Some(ik) } => *ik,
        _ => k,
    }
}

/// The text an edit of node `n` starts from, if `n` is editable as text.
pub open spec fn edit_text(n: NodeView) -> Option<Seq<char>> {
    match effective_kind(n.kind) {
        KindView::String => Some(
            match n.value {
                Json::Str(s) => s,
                _ => Seq::empty(),
            },
        ),
        KindView::Integer => Some(
            match n.value {
                Json::Number(t) => t,
                _ => "0"@,
            },
        ),
        KindView::Float => Some(
            match n.value {
                Json::Number(t) => t,
                _ => "0.0"@,
            },
        ),
        _ => None,
    }
}

/// The value an edit of a node of kind `kind` stores for `buffer`: the
/// text itself for a string, the integer it reads as (written back in
/// plain decimal) for an integer, and `float_reading` for a float, which
/// is the display text of the finite `f64` the buffer reads as.
pub open spec fn confirmed_value(kind: KindView, buffer: Seq<char>, float_reading: Option<Seq<char>>) -> Option<Json> {
    match effective_kind(kind) {
        KindView::String => Some(Json::Str(buffer)),
        KindView::Integer => match parse_i64(buffer) {
            Some(n) => Some(Json::Number(i64_text(n))),
            None => None,
        },
        KindView::Float => match float_reading {
            Some(t) => Some(Json::Number(t)),
            None => None,
        },
        _ => None,
    }
}

/// The boolean a value reads as, false for a non-boolean.
pub open spec fn bool_or_false(v: Json) -> bool {
    match v {
        Json::Bool(b) => b,
        _ => false,
    }
}

/// The children a present struct optional gets: those of its inner
/// schema's default value, at the depth of the path's length.
pub open spec fn option_children(schema: Json, default: Json, defs: Entries, depth: nat) -> Seq<NodeView> {
    if depth <= DEPTH_CAP {
        inner_children(resolved(schema, defs), default, defs, depth as usize)
    } else {
        Seq::empty()
    }
}

/// The node tree after the node at `path` was found and changed by `f`.
pub open spec fn changed_at(tree: Seq<NodeView>, path: Seq<char>, f: spec_fn(NodeView) -> NodeView) -> Seq<NodeView> {
    update_at(tree, split_dots(path), f)
}

impl TreeState {
    /// Selection, scroll, cursor, definitions and filter are the same in
    /// `self` and `other`.
    pub open spec fn same_frame(&self, other: &TreeState) -> bool {
        &&& self.selected == other.selected
        &&& self.scroll_offset == other.scroll_offset
        &&& self.cursor_position == other.cursor_position
        &&& self.defs@ == other.defs@
        &&& self.filter == other.filter
    }

    /// The nodes of the tree are the only difference.
    pub open spec fn same_but_tree(&self, other: &TreeState) -> bool {
        &&& self.same_frame(other)
        &&& self.expanded@ == other.expanded@
        &&& self.edit_mode == other.edit_mode
    }

    /// What `start_edit` does: it starts a text edit of the selected node.
    pub open spec fn starts_edit(&self, new: TreeState) -> bool {
        &&& new.same_but_edit(self)
        &&& match self.selected_entry() {
            Some(e) => match edit_text(e.0) {
                Some(t) => edit_view(new.edit_mode) == Some((t, byte_len(t))),
                None => new.edit_mode == self.edit_mode,
            },
            None => new.edit_mode == self.edit_mode,
        }
    }

    /// Starts editing the selected node as text, when it is a string, an
    /// integer, a float or a present scalar optional of one of these; the
    /// cursor goes to the end.
    pub fn start_edit(&mut self)
        requires
            old(self).wf(),
        ensures
            final(self).wf(),
            old(self).starts_edit(*final(self)),
    {
        let visible = self.visible_nodes();
        if self.selected < visible.len() {
            let vn = &visible[self.selected];
            let node = vn.node;
            proof {
                assert(vn_views(visible@)[self.selected as int] == (node_view(*node), vn.path@));
                assert(self.selected_entry() == Some((node_view(*node), vn.path@)));
            }
            let ek: &NodeKind = match &node.kind {
                NodeKind::Option { is_some: true, inner_kind: Some(ik) } => &**ik,
                other => other,
            };
            proof {
                assert(ek@ == effective_kind(node_view(*node).kind));
            }
            let buf: String = match ek {
                NodeKind::String => match node.value.as_str() {
                    Some(s) => s.clone(),
                    None => String::new(),
                },
                NodeKind::Integer => match &node.value {
                    JsonValue::Number(n) => n.clone(),
                    _ => string_of("0"),
                },
                NodeKind::Float => match &node.value {
                    JsonValue::Number(n) => n.clone(),
                    _ => string_of("0.0"),
                },
                _ => {
                    return;
                },
            };
            let cursor_pos = byte_len_exec(buf.as_str());
            proof {
                lemma_take_all(buf@);
            }
            self.edit_mode = EditMode::Editing { buffer: buf, cursor_pos };
        }
    }

    /// What `confirm_edit` does: it ends an edit, storing its value.
    pub open spec fn confirms_edit(&self, new: TreeState, float_reading: Option<Seq<char>>, changed: bool) -> bool {
        &&& match edit_view(self.edit_mode) {
            None => !changed && new.edit_mode == self.edit_mode && new.same_but_edit(self),
            Some(ed) => new.edit_mode == EditMode::Normal && match self.selected_entry() {
                Some(e) => match confirmed_value(e.0.kind, ed.0, float_reading) {
                    Some(v) => {
                        &&& changed
                        &&& new.tree() == changed_at(self.tree(), e.1, with_value(v))
                        &&& new.expanded@ == self.expanded@
                        &&& new.same_frame(self)
                    },
                    None => !changed && new.same_but_edit(self),
                },
                None => !changed && new.same_but_edit(self),
            },
        }
    }

    /// Ends an edit and stores the buffer's value in the selected node;
    /// returns whether a value was stored. `float_reading` is the display
    /// text of the finite `f64` that the buffer reads as, if it reads as
    /// one; it is used when the node holds a float.
    pub fn confirm_edit(&mut self, float_reading: Option<String>) -> (changed: bool)
        requires
            old(self).wf(),
        ensures
            final(self).wf(),
            old(self).confirms_edit(*final(self), opt_str_view(float_reading), changed),
    {
        let buffer = match &self.edit_mode {
            EditMode::Editing { buffer, .. } => buffer.clone(),
            EditMode::Normal => {
                return false;
            },
        };
        let visible = self.visible_nodes();
        if self.selected >= visible.len() {
            self.edit_mode = EditMode::Normal;
            return false;
        }
        let vn = &visible[self.selected];
        proof {
            assert(vn_views(visible@)[self.selected as int] == (node_view(*vn.node), vn.path@));
            assert(self.selected_entry() == Some((node_view(*vn.node), vn.path@)));
        }
        let path = vn.path.clone();
        let ek: &NodeKind = match &vn.node.kind {
            NodeKind::Option { is_some: true, inner_kind: Some(ik) } => &**ik,
            other => other,
        };
        proof {
            assert(ek@ == effective_kind(node_view(*vn.node).kind));
        }
        let new_value: Option<JsonValue> = match ek {
            NodeKind::String => Some(JsonValue::String(buffer)),
            NodeKind::Integer => match parse_i64_exec(buffer.as_str()) {
                Some(n) => Some(JsonValue::Number(i64_to_string(n))),
                None => None,
            },
            NodeKind::Float => match float_reading {
                Some(t) => Some(JsonValue::Number(t)),
                None => None,
            },
            _ => None,
        };
        self.edit_mode = EditMode::Normal;
        match new_value {
            Some(val) => {
                self.set_value_at_path(path.as_str(), val);
                true
            },
            None => false,
        }
    }

    /// What `edit_insert_char` does: it types a character into the edit buffer.
    pub open spec fn types_char(&self, new: TreeState, c: char) -> bool {
        &&& new.same_but_edit(self)
        &&& edit_view(new.edit_mode) == match edit_view(self.edit_mode) {
            Some(e) => Some(typed(e.0, e.1, c)),
            None => None,
        }
    }

    /// Types `c` at the cursor of the edit buffer.
    pub fn edit_insert_char(&mut self, c: char)
        requires
            old(self).wf(),
            match edit_view(old(self).edit_mode) {
                Some(e) => byte_len(e.0) + char_width(c) <= isize::MAX,
                None => true,
            },
        ensures
            final(self).wf(),
            old(self).types_char(*final(self), c),
    {
        let next = match &self.edit_mode {
            EditMode::Editing { buffer, cursor_pos } => {
                let cs = chars_of(buffer.as_str());
                let k = char_index_at(&cs, *cursor_pos);
                proof {
                    lemma_byte_len_take_le(cs@, k as int);
                    lemma_typed(cs@, *cursor_pos as nat, c);
                }
                let nb = splice(&cs, k, k, Some(c));
                Some((nb, *cursor_pos + char_width_exec(c)))
            },
            EditMode::Normal => None,
        };
        if let Some((buffer, cursor_pos)) = next {
            self.edit_mode = EditMode::Editing { buffer, cursor_pos };
        }
    }

    /// What `edit_backspace` does: it removes the character before the edit cursor.
    pub open spec fn backspaces(&self, new: TreeState) -> bool {
        &&& new.same_but_edit(self)
        &&& edit_view(new.edit_mode) == match edit_view(self.edit_mode) {
            Some(e) => Some(backspaced(e.0, e.1)),
            None => None,
        }
    }

    /// Removes the character before the cursor.
    pub fn edit_backspace(&mut self)
        requires
            old(self).wf(),
        ensures
            final(self).wf(),
            old(self).backspaces(*final(self)),
    {
        let next = match &self.edit_mode {
            EditMode::Editing { buffer, cursor_pos } => {
                if *cursor_pos > 0 {
                    let cs = chars_of(buffer.as_str());
                    let k = char_index_at(&cs, *cursor_pos);
                    proof {
                        lemma_backspaced(cs@, *cursor_pos as nat);
                        lemma_byte_len_monotone(cs@, k - 1, k as int);
                    }
                    let nb = splice(&cs, k - 1, k, None);
                    let np = byte_len_of_prefix(&cs, k - 1);
                    Some((nb, np))
                } else {
                    None
                }
            },
            EditMode::Normal => None,
        };
        if let Some((buffer, cursor_pos)) = next {
            self.edit_mode = EditMode::Editing { buffer, cursor_pos };
        }
    }

    /// What `edit_delete` does: it removes the character after the edit cursor.
    pub open spec fn deletes(&self, new: TreeState) -> bool {
        &&& new.same_but_edit(self)
        &&& edit_view(new.edit_mode) == match edit_view(self.edit_mode) {
            Some(e) => Some(deleted(e.0, e.1)),
            None => None,
        }
    }

    /// Removes the character after the cursor.
    pub fn edit_delete(&mut self)
        requires
            old(self).wf(),
        ensures
            final(self).wf(),
            old(self).deletes(*final(self)),
    {
        let next = match &self.edit_mode {
            EditMode::Editing { buffer, cursor_pos } => {
                if *cursor_pos < byte_len_exec(buffer.as_str()) {
                    let cs = chars_of(buffer.as_str());
                    let k = char_index_at(&cs, *cursor_pos);
                    proof {
                        lemma_deleted(cs@, *cursor_pos as nat);
                    }
                    let nb = splice(&cs, k, k + 1, None);
                    Some((nb, *cursor_pos))
                } else {
                    None
                }
            },
            EditMode::Normal => None,
        };
        if let Some((buffer, cursor_pos)) = next {
            self.edit_mode = EditMode::Editing { buffer, cursor_pos };
        }
    }

    /// What `edit_cursor_left` does: it moves the edit cursor left.
    pub open spec fn moves_left(&self, new: TreeState) -> bool {
        &&& new.same_but_edit(self)
        &&& edit_view(new.edit_mode) == match edit_view(self.edit_mode) {
            Some(e) => Some(moved_left(e.0, e.1)),
            None => None,
        }
    }

    /// Moves the cursor one character to the left.
    pub fn edit_cursor_left(&mut self)
        requires
            old(self).wf(),
        ensures
            final(self).wf(),
            old(self).moves_left(*final(self)),
    {
        let next = match &self.edit_mode {
            EditMode::Editing { buffer, cursor_pos } => {
                if *cursor_pos > 0 {
                    let cs = chars_of(buffer.as_str());
                    let k = char_index_at(&cs, *cursor_pos);
                    proof {
                        lemma_moved_left(cs@, *cursor_pos as nat);
                    }
                    let np = byte_len_of_prefix(&cs, k - 1);
                    Some((buffer.clone(), np))
                } else {
                    None
                }
            },
            EditMode::Normal => None,
        };
        if let Some((buffer, cursor_pos)) = next {
            self.edit_mode = EditMode::Editing { buffer, cursor_pos };
        }
    }

    /// What `edit_cursor_right` does: it moves the edit cursor right.
    pub open spec fn moves_right(&self, new: TreeState) -> bool {
        &&& new.same_but_edit(self)
        &&& edit_view(new.edit_mode) == match edit_view(self.edit_mode) {
            Some(e) => Some(moved_right(e.0, e.1)),
            None => None,
        }
    }

    /// Moves the cursor one character to the right.
    pub fn edit_cursor_right(&mut self)
        requires
            old(self).wf(),
        ensures
            final(self).wf(),
            old(self).moves_right(*final(self)),
    {
        let next = match &self.edit_mode {
            EditMode::Editing { buffer, cursor_pos } => {
                if *cursor_pos < byte_len_exec(buffer.as_str()) {
                    let cs = chars_of(buffer.as_str());
                    let k = char_index_at(&cs, *cursor_pos);
                    proof {
                        lemma_moved_right(cs@, *cursor_pos as nat);
                    }
                    let np = byte_len_of_prefix(&cs, k + 1);
                    Some((buffer.clone(), np))
                } else {
                    None
                }
            },
            EditMode::Normal => None,
        };
        if let Some((buffer, cursor_pos)) = next {
            self.edit_mode = EditMode::Editing { buffer, cursor_pos };
        }
    }

    /// What `edit_cursor_home` does: it moves the edit cursor to the start.
    pub open spec fn moves_home(&self, new: TreeState) -> bool {
        &&& new.same_but_edit(self)
        &&& edit_view(new.edit_mode) == match edit_view(self.edit_mode) {
            Some(e) => Some((e.0, 0nat)),
            None => None,
        }
    }

    /// Moves the cursor to the start of the buffer.
    pub fn edit_cursor_home(&mut self)
        requires
            old(self).wf(),
        ensures
            final(self).wf(),
            old(self).moves_home(*final(self)),
    {
        let next = match &self.edit_mode {
            EditMode::Editing { buffer, .. } => Some(buffer.clone()),
            EditMode::Normal => None,
        };
        if let Some(buffer) = next {
            proof {
                assert(buffer@.take(0) =~= Seq::<char>::empty());
            }
            self.edit_mode = EditMode::Editing { buffer, cursor_pos: 0 };
        }
    }

    /// What `edit_cursor_end` does: it moves the edit cursor to the end.
    pub open spec fn moves_end(&self, new: TreeState) -> bool {
        &&& new.same_but_edit(self)
        &&& edit_view(new.edit_mode) == match edit_view(self.edit_mode) {
            Some(e) => Some((e.0, byte_len(e.0))),
            None => None,
        }
    }

    /// Moves the cursor to the end of the buffer.
    pub fn edit_cursor_end(&mut self)
        requires
            old(self).wf(),
        ensures
            final(self).wf(),
            old(self).moves_end(*final(self)),
    {
        let next = match &self.edit_mode {
            EditMode::Editing { buffer, .. } => Some(buffer.clone()),
            EditMode::Normal => None,
        };
        if let Some(buffer) = next {
            let end = byte_len_exec(buffer.as_str());
            proof {
                lemma_take_all(buffer@);
            }
            self.edit_mode = EditMode::Editing { buffer, cursor_pos: end };
        }
    }

    /// Stores `value` in the node at `path`.
    fn set_value_at_path(&mut self, path: &str, value: JsonValue)
        requires
            old(self).wf(),
        ensures
            final(self).wf(),
            final(self).same_but_tree(old(self)),
            final(self).tree() == changed_at(old(self).tree(), path@, with_value(value@)),
    {
        let parts = path_parts(path);
        set_in_nodes(&mut self.nodes, &parts, 0, value);
    }
}

// ---------------------------------------------------------------------
// Toggles, choices and the tree's value
// ---------------------------------------------------------------------

/// The children of a present optional built from its inner schema and a
/// value: the fields of a struct schema, else one node named `value`.
pub fn build_inner_children_from_schema(
    schema: &JsonValue,
    value: &JsonValue,
    defs: &Vec<(String, JsonValue)>,
    depth: usize,
) -> (r: Vec<ConfigNode>)
    requires
        depth <= DEPTH_CAP,
    ensures
        nodes_view(r@) == inner_children(schema@, value@, ev(defs@), depth),
{
    let type_str: String = match get_str_exec(schema, "type") {
        Some(t) => t.clone(),
        None => String::new(),
    };
    if str_eq(type_str.as_str(), "object") {
        if let Some(props) = get_object_exec(schema, "properties") {
            return build_tree_from_properties(props, schema, defs, value.as_object(), depth);
        }
    }
    let n = build_node_pub("value", schema, value, defs, depth);
    let mut r: Vec<ConfigNode> = Vec::new();
    r.push(n);
    proof {
        reveal_strlit("value");
        lemma_nodes_view_push(Seq::<ConfigNode>::empty(), n);
        assert(nodes_view(Seq::<ConfigNode>::empty()) =~= Seq::<NodeView>::empty());
        assert(r@ =~= Seq::<ConfigNode>::empty().push(n));
        assert(Seq::<NodeView>::empty().push(node_view(n)) =~= seq![node_view(n)]);
    }
    r
}

impl TreeState {
    /// What `toggle_bool` does: it flips the selected boolean.
    pub open spec fn toggles_bool(&self, new: TreeState) -> bool {
        &&& new.same_but_tree(self)
        &&& new.tree() == match self.selected_entry() {
            Some(e) => if e.0.kind == KindView::Bool {
                changed_at(self.tree(), e.1, with_value(Json::Bool(!bool_or_false(e.0.value))))
            } else {
                self.tree()
            },
            None => self.tree(),
        }
    }

    /// Flips the selected boolean node (a missing value counts as false).
    pub fn toggle_bool(&mut self)
        requires
            old(self).wf(),
        ensures
            final(self).wf(),
            old(self).toggles_bool(*final(self)),
    {
        let visible = self.visible_nodes();
        if self.selected < visible.len() {
            let vn = &visible[self.selected];
            proof {
                assert(vn_views(visible@)[self.selected as int] == (node_view(*vn.node), vn.path@));
            }
            if let NodeKind::Bool = vn.node.kind {
                let path = vn.path.clone();
                let current = match vn.node.value.as_bool() {
                    Some(b) => b,
                    None => false,
                };
                self.set_value_at_path(path.as_str(), JsonValue::Bool(!current));
            }
        }
    }

    /// What `select_radio` does: it chooses the selected radio item.
    pub open spec fn selects_radio(&self, new: TreeState, changed: bool) -> bool {
        &&& new.same_frame(self)
        &&& new.edit_mode == self.edit_mode
        &&& match self.selected_entry() {
            Some(e) => match e.0.kind {
                KindView::RadioItem { selected: true, .. } => {
                    &&& !changed
                    &&& new.nodes@ == self.nodes@
                    &&& new.expanded_set() == if e.0.children.len() > 0 {
                        if self.expanded_set().contains(e.1) {
                            self.expanded_set().remove(e.1)
                        } else {
                            self.expanded_set().insert(e.1)
                        }
                    } else {
                        self.expanded_set()
                    }
                },
                KindView::RadioItem { selected: false, .. } => changed && match last_dot(e.1) {
                    Some(d) => {
                        &&& new.tree() == changed_at(
                            self.tree(),
                            e.1.take(d),
                            with_radio_selected(e.0.key, self.defs_view()),
                        )
                        &&& new.expanded_set() == self.expanded_set().insert(
                            e.1.take(d) + seq!['.'] + e.0.key,
                        )
                    },
                    None => new.nodes@ == self.nodes@ && new.expanded@ == self.expanded@,
                },
                _ => !changed && new.nodes@ == self.nodes@ && new.expanded@ == self.expanded@,
            },
            None => !changed && new.nodes@ == self.nodes@ && new.expanded@ == self.expanded@,
        }
    }

    /// Chooses the selected radio item in its group: the other items of
    /// the group are deselected, the group's value follows, and the
    /// chosen item's path is expanded. On an item that is already chosen
    /// it toggles expansion instead. Returns whether the choice changed.
    pub fn select_radio(&mut self) -> (changed: bool)
        requires
            old(self).wf(),
        ensures
            final(self).wf(),
            old(self).selects_radio(*final(self), changed),
    {
        let visible = self.visible_nodes();
        if self.selected >= visible.len() {
            return false;
        }
        let vn = &visible[self.selected];
        proof {
            assert(vn_views(visible@)[self.selected as int] == (node_view(*vn.node), vn.path@));
        }
        let already_selected = match vn.node.kind {
            NodeKind::RadioItem { selected, .. } => selected,
            _ => {
                return false;
            },
        };
        let path = vn.path.clone();
        let variant_name = vn.node.key.clone();
        let ghost entry = (node_view(*vn.node), vn.path@);
        proof {
            lemma_nodes_view(vn.node.children@);
            assert(self.selected_entry() == Some(entry));
        }
        if already_selected {
            self.toggle_expand();
            return false;
        }
        let cs = chars_of(path.as_str());
        if let Some(dot) = last_dot_exec(&cs) {
            proof {
                lemma_last_dot_bounds(cs@);
            }
            let parent_path = string_from_chars(&cs, 0, dot);
            proof {
                assert(parent_path@ =~= path@.take(dot as int));
            }
            let parts = path_parts(parent_path.as_str());
            select_radio_in_nodes(&mut self.nodes, &parts, 0, variant_name.as_str(), &self.defs);
            let mut selected_path = parent_path;
            push_char(&mut selected_path, '.');
            let selected_path = concat_strings(selected_path.as_str(), variant_name.as_str());
            proof {
                assert(selected_path@ =~= path@.take(dot as int) + seq!['.'] + entry.0.key);
            }
            expanded_insert(&mut self.expanded, selected_path);
        }
        true
    }

    /// What `toggle_option` does: it toggles the selected optional.
    pub open spec fn toggles_option(&self, new: TreeState) -> bool {
        &&& new.same_frame(self)
        &&& new.edit_mode == self.edit_mode
        &&& match self.selected_entry() {
            Some(e) => match e.0.kind {
                KindView::Option { is_some: true, .. } => {
                    &&& new.tree() == changed_at(self.tree(), e.1, with_option_state(false, Json::Null, Seq::empty()))
                    &&& new.expanded_set() == self.expanded_set().remove(e.1)
                },
                KindView::Option { is_some: false, inner_kind } => match e.0.inner_schema {
                    Some(schema) => {
                        let d = default_value(schema, self.defs_view());
                        if inner_kind is Some {
                            &&& new.tree() == changed_at(self.tree(), e.1, with_option_state(true, d, Seq::empty()))
                            &&& new.expanded@ == self.expanded@
                        } else {
                            &&& new.tree() == changed_at(
                                self.tree(),
                                e.1,
                                with_option_state(
                                    true,
                                    d,
                                    option_children(schema, d, self.defs_view(), split_dots(e.1).len()),
                                ),
                            )
                            &&& new.expanded_set() == self.expanded_set().insert(e.1)
                        }
                    },
                    None => new.nodes@ == self.nodes@ && new.expanded@ == self.expanded@,
                },
                _ => new.nodes@ == self.nodes@ && new.expanded@ == self.expanded@,
            },
            None => new.nodes@ == self.nodes@ && new.expanded@ == self.expanded@,
        }
    }

    /// Makes the selected optional absent if it is present, or present
    /// with its inner schema's default value if it is absent; a struct
    /// optional gets the default's fields as children and is expanded.
    pub fn toggle_option(&mut self)
        requires
            old(self).wf(),
        ensures
            final(self).wf(),
            old(self).toggles_option(*final(self)),
    {
        let visible = self.visible_nodes();
        if self.selected >= visible.len() {
            return;
        }
        let vn = &visible[self.selected];
        proof {
            assert(vn_views(visible@)[self.selected as int] == (node_view(*vn.node), vn.path@));
        }
        let (is_some, is_scalar) = match &vn.node.kind {
            NodeKind::Option { is_some, inner_kind } => (*is_some, inner_kind.is_some()),
            _ => {
                return;
            },
        };
        let path = vn.path.clone();
        let inner_schema = clone_opt_json(&vn.node.inner_schema);
        if is_some {
            self.set_option_none(path.as_str());
            expanded_remove(&mut self.expanded, path.as_str());
        } else if let Some(schema) = inner_schema {
            let default = default_value_for_schema(&schema, &self.defs);
            if is_scalar {
                self.set_option_scalar_some(path.as_str(), default);
            } else {
                self.set_option_some(path.as_str(), default, &schema);
                expanded_insert(&mut self.expanded, path);
            }
        }
    }

    /// What `toggle_checkbox` does: it toggles the selected checkbox item.
    pub open spec fn toggles_checkbox(&self, new: TreeState) -> bool {
        &&& new.same_but_tree(self)
        &&& new.tree() == match self.selected_entry() {
            Some(e) => match e.0.kind {
                KindView::CheckboxItem { checked } => {
                    let t = changed_at(self.tree(), e.1, with_checked(!checked));
                    match last_dot(e.1) {
                        Some(d) => changed_at(t, e.1.take(d), with_checked_list()),
                        None => t,
                    }
                },
                _ => self.tree(),
            },
            None => self.tree(),
        }
    }

    /// Checks or unchecks the selected checkbox item and rebuilds the
    /// value of its checkbox list.
    #[verifier::spinoff_prover]
    #[verifier::rlimit(60)]
    pub fn toggle_checkbox(&mut self)
        requires
            old(self).wf(),
        ensures
            final(self).wf(),
            old(self).toggles_checkbox(*final(self)),
    {
        let visible = self.visible_nodes();
        if self.selected >= visible.len() {
            return;
        }
        let vn = &visible[self.selected];
        proof {
            assert(vn_views(visible@)[self.selected as int] == (node_view(*vn.node), vn.path@));
        }
        let checked = match vn.node.kind {
            NodeKind::CheckboxItem { checked } => checked,
            _ => {
                return;
            },
        };
        let path = vn.path.clone();
        let ghost entry = (node_view(*vn.node), vn.path@);
        proof {
            assert(self.selected_entry() == Some(entry));
        }
        self.set_checked_at_path(path.as_str(), !checked);
        let cs = chars_of(path.as_str());
        if let Some(dot) = last_dot_exec(&cs) {
            proof {
                lemma_last_dot_bounds(cs@);
            }
            let parent_path = string_from_chars(&cs, 0, dot);
            proof {
                assert(parent_path@ =~= path@.take(dot as int));
            }
            self.rebuild_checked_list_at_path(parent_path.as_str());
        }
    }

    /// Checks or unchecks the checkbox item at `path`.
    fn set_checked_at_path(&mut self, path: &str, checked: bool)
        requires
            old(self).wf(),
        ensures
            final(self).wf(),
            final(self).same_but_tree(old(self)),
            final(self).tree() == changed_at(old(self).tree(), path@, with_checked(checked)),
    {
        let parts = path_parts(path);
        toggle_checkbox_in_nodes(&mut self.nodes, &parts, 0, checked);
    }

    /// Rebuilds the value of the checkbox list at `path`.
    fn rebuild_checked_list_at_path(&mut self, path: &str)
        requires
            old(self).wf(),
        ensures
            final(self).wf(),
            final(self).same_but_tree(old(self)),
            final(self).tree() == changed_at(old(self).tree(), path@, with_checked_list()),
    {
        let parts = path_parts(path);
        rebuild_checkboxes_value(&mut self.nodes, &parts, 0);
    }

    /// The configuration value the tree holds (see `nodes_json`).
    pub fn to_value(&self) -> (v: JsonValue)
        ensures
            v@ == nodes_json(self.tree()),
    {
        nodes_to_value(&self.nodes)
    }

    /// Makes the optional at `path` absent.
    fn set_option_none(&mut self, path: &str)
        requires
            old(self).wf(),
        ensures
            final(self).wf(),
            final(self).same_but_tree(old(self)),
            final(self).tree() == changed_at(old(self).tree(), path@, with_option_state(false, Json::Null, Seq::empty())),
    {
        let parts = path_parts(path);
        proof {
            assert(nodes_view(Seq::<ConfigNode>::empty()) =~= Seq::<NodeView>::empty());
        }
        set_option_state_in_nodes(&mut self.nodes, &parts, 0, false, JsonValue::Null, Vec::new());
    }

    /// Makes the scalar optional at `path` present with `default`.
    fn set_option_scalar_some(&mut self, path: &str, default: JsonValue)
        requires
            old(self).wf(),
        ensures
            final(self).wf(),
            final(self).same_but_tree(old(self)),
            final(self).tree() == changed_at(old(self).tree(), path@, with_option_state(true, default@, Seq::empty())),
    {
        let parts = path_parts(path);
        proof {
            assert(nodes_view(Seq::<ConfigNode>::empty()) =~= Seq::<NodeView>::empty());
        }
        set_option_state_in_nodes(&mut self.nodes, &parts, 0, true, default, Vec::new());
    }

    /// Makes the struct optional at `path` present with `default`, and the
    /// children built from `schema` for it.
    fn set_option_some(&mut self, path: &str, default: JsonValue, schema: &JsonValue)
        requires
            old(self).wf(),
        ensures
            final(self).wf(),
            final(self).same_but_tree(old(self)),
            final(self).tree() == changed_at(
                old(self).tree(),
                path@,
                with_option_state(true, default@, option_children(schema@, default@, old(self).defs_view(), split_dots(path@).len())),
            ),
    {
        let parts = path_parts(path);
        proof {
            assert(parts@.len() == split_dots(path@).len()) by {
                assert(parts_from(parts@, 0).len() == parts@.len());
            }
        }
        let resolved_schema = resolve_schema(schema, &self.defs);
        let children = if parts.len() <= DEPTH_CAP {
            build_inner_children_from_schema(resolved_schema, &default, &self.defs, parts.len())
        } else {
            proof {
                assert(nodes_view(Seq::<ConfigNode>::empty()) =~= Seq::<NodeView>::empty());
            }
            Vec::new()
        };
        set_option_state_in_nodes(&mut self.nodes, &parts, 0, true, default, children);
    }
}

/// The byte length of `cs[..k]`.
pub fn byte_len_of_prefix(cs: &Vec<char>, k: usize) -> (n: usize)
    requires
        k <= cs@.len(),
    ensures
        n == byte_len(cs@.take(k as int)),
{
    let s = splice(cs, k, cs.len(), None);
    proof {
        assert(cs@.skip(cs@.len() as int) =~= Seq::<char>::empty());
        assert(s@ =~= cs@.take(k as int));
    }
    byte_len_exec(s.as_str())
}

} // verus!
