//! What the tree widget draws: the text of each value, the scrolling, and
//! every cell written for one frame.
use vstd::prelude::*;
use crate::json::{Json, JsonValue, json_seq_view, json_entries_view, lemma_json_seq_view, lemma_json_entries_view};
use crate::node::{ConfigNode, NodeKind, KindView, NodeView, nodes_view, node_view, lemma_nodes_view, kind_view};
use crate::paths::{checked_names, checked_names_exec};
use crate::value::{first_selected, is_selected_item, lemma_first_selected};
use crate::state::{bool_or_false, TreeState, EditMode, edit_view, edit_ok, vn_views, expanded_contains};
use crate::buffer::{char_at_byte, char_index_at, lemma_take_all};
use crate::text::{decimal, u64_to_string, push_char, string_of, concat_strings, byte_len};

verus! {

// ---------------------------------------------------------------------
// Compact JSON text
// ---------------------------------------------------------------------

/// Lower-case hexadecimal digit of `d < 16`.
pub open spec fn hex_digit(d: u32) -> char {
    if d < 10 {
        (('0' as u32) + d) as char
    } else {
        (('a' as u32) + d - 10) as char
    }
}

/// A character inside a JSON string: quote, backslash and control
/// characters escaped, everything else as it is.
pub open spec fn escape_char(c: char) -> Seq<char> {
    if c == '"' {
        seq!['\\', '"']
    } else if c == '\\' {
        seq!['\\', '\\']
    } else if c == '\u{8}' {
        seq!['\\', 'b']
    } else if c == '\u{c}' {
        seq!['\\', 'f']
    } else if c == '\n' {
        seq!['\\', 'n']
    } else if c == '\r' {
        seq!['\\', 'r']
    } else if c == '\t' {
        seq!['\\', 't']
    } else if (c as u32) < 0x20 {
        seq!['\\', 'u', '0', '0', hex_digit((c as u32) / 16), hex_digit((c as u32) % 16)]
    } else {
        seq![c]
    }
}

pub open spec fn escaped(s: Seq<char>) -> Seq<char>
    decreases s.len(),
{
    if s.len() == 0 {
        Seq::empty()
    } else {
        escaped(s.drop_last()) + escape_char(s.last())
    }
}

/// A JSON string literal.
pub open spec fn quoted(s: Seq<char>) -> Seq<char> {
    seq!['"'] + escaped(s) + seq!['"']
}

/// The compact JSON text of a value, entries in stored order.
pub open spec fn json_text(v: Json) -> Seq<char>
    decreases v, 1int,
{
    match v {
        Json::Null => "null"@,
        Json::Bool(b) => if b {
            "true"@
        } else {
            "false"@
        },
        Json::Number(t) => t,
        Json::Str(s) => quoted(s),
        Json::Array(a) => seq!['['] + items_text(a) + seq![']'],
        Json::Object(e) => seq!['{'] + members_text(e) + seq!['}'],
    }
}

/// Array items separated by commas.
pub open spec fn items_text(a: Seq<Json>) -> Seq<char>
    decreases a, 0int,
{
    if a.len() == 0 {
        Seq::empty()
    } else if a.len() == 1 {
        json_text(a[0])
    } else {
        items_text(a.drop_last()) + seq![','] + json_text(a.last())
    }
}

/// Object members `"key":value` separated by commas.
pub open spec fn members_text(e: Seq<(Seq<char>, Json)>) -> Seq<char>
    decreases e, 0int,
{
    if e.len() == 0 {
        Seq::empty()
    } else if e.len() == 1 {
        quoted(e[0].0) + seq![':'] + json_text(e[0].1)
    } else {
        members_text(e.drop_last()) + seq![','] + quoted(e.last().0) + seq![':'] + json_text(e.last().1)
    }
}

fn hex_digit_exec(d: u32) -> (c: char)
    requires
        d < 16,
    ensures
        c == hex_digit(d),
{
    if d < 10 {
        ((d as u8) + 48u8) as char
    } else {
        ((d as u8) + 87u8) as char
    }
}

/// Appends the escaped characters of `s`.
fn push_escaped(out: &mut String, s: &str)
    ensures
        final(out)@ == old(out)@ + escaped(s@),
{
    let cs = crate::text::chars_of(s);
    let mut i: usize = 0;
    proof {
        assert(cs@.take(0) =~= Seq::<char>::empty());
        assert(old(out)@ + escaped(Seq::<char>::empty()) =~= old(out)@);
    }
    while i < cs.len()
        invariant
            cs@ == s@,
            i <= cs@.len(),
            out@ == old(out)@ + escaped(cs@.take(i as int)),
        decreases cs@.len() - i,
    {
        let c = cs[i];
        let ghost before = out@;
        proof {
            assert(cs@.take(i + 1).drop_last() =~= cs@.take(i as int));
            assert(cs@.take(i + 1).last() == c);
        }
        if c == '"' {
            push_char(out, '\\');
            push_char(out, '"');
        } else if c == '\\' {
            push_char(out, '\\');
            push_char(out, '\\');
        } else if c == '\u{8}' {
            push_char(out, '\\');
            push_char(out, 'b');
        } else if c == '\u{c}' {
            push_char(out, '\\');
            push_char(out, 'f');
        } else if c == '\n' {
            push_char(out, '\\');
            push_char(out, 'n');
        } else if c == '\r' {
            push_char(out, '\\');
            push_char(out, 'r');
        } else if c == '\t' {
            push_char(out, '\\');
            push_char(out, 't');
        } else if (c as u32) < 0x20 {
            push_char(out, '\\');
            push_char(out, 'u');
            push_char(out, '0');
            push_char(out, '0');
            push_char(out, hex_digit_exec((c as u32) / 16));
            push_char(out, hex_digit_exec((c as u32) % 16));
        } else {
            push_char(out, c);
        }
        proof {
            assert(out@ =~= before + escape_char(c));
            assert(old(out)@ + escaped(cs@.take(i + 1)) =~= old(out)@ + escaped(cs@.take(i as int)) + escape_char(c));
        }
        i = i + 1;
    }
    proof {
        assert(cs@.take(cs@.len() as int) =~= cs@);
    }
}

fn push_quoted(out: &mut String, s: &str)
    ensures
        final(out)@ == old(out)@ + quoted(s@),
{
    push_char(out, '"');
    push_escaped(out, s);
    push_char(out, '"');
    proof {
        assert(out@ =~= old(out)@ + quoted(s@));
    }
}

fn push_str(out: &mut String, s: &str)
    ensures
        final(out)@ == old(out)@ + s@,
{
    let r = concat_strings(out.as_str(), s);
    *out = r;
}

/// Appends the compact JSON text of `v`.
pub fn write_json(out: &mut String, v: &JsonValue)
    ensures
        final(out)@ == old(out)@ + json_text(v@),
    decreases v,
{
    match v {
        JsonValue::Null => push_str(out, "null"),
        JsonValue::Bool(b) => if *b {
            push_str(out, "true")
        } else {
            push_str(out, "false")
        },
        JsonValue::Number(t) => push_str(out, t.as_str()),
        JsonValue::String(s) => push_quoted(out, s.as_str()),
        JsonValue::Array(a) => {
            let ghost av = json_seq_view(a@);
            proof {
                lemma_json_seq_view(a@);
            }
            push_char(out, '[');
            let ghost start = out@;
            let mut i: usize = 0;
            proof {
                assert(av.take(0) =~= Seq::<Json>::empty());
                assert(start + items_text(Seq::<Json>::empty()) =~= start);
            }
            while i < a.len()
                invariant
                    i <= a@.len(),
                    av == json_seq_view(a@),
                    av.len() == a@.len(),
                    forall|j: int| 0 <= j < a@.len() ==> #[trigger] av[j] == crate::json::json_view(a@[j]),
                    out@ == start + items_text(av.take(i as int)),
                    *v == JsonValue::Array(*a),
                decreases a@.len() - i,
            {
                proof {
                    assert(av.take(i + 1).drop_last() =~= av.take(i as int));
                    assert(av.take(i + 1).last() == av[i as int]);
                    assert(decreases_to!(*v => v->Array_0));
                    assert(decreases_to!(a => a@));
                    assert(decreases_to!(a@ => a@[i as int]));
                }
                if i > 0 {
                    push_char(out, ',');
                }
                let ghost mid = out@;
                write_json(out, &a[i]);
                proof {
                    if i == 0 {
                        assert(av.take(1) =~= seq![av[0]]);
                        assert(out@ =~= start + items_text(av.take(1)));
                    } else {
                        assert(out@ =~= start + items_text(av.take(i + 1)));
                    }
                }
                i = i + 1;
            }
            proof {
                assert(av.take(a@.len() as int) =~= av);
            }
            push_char(out, ']');
            proof {
                assert(out@ =~= old(out)@ + json_text(v@));
            }
        },
        JsonValue::Object(e) => {
            let ghost ev = json_entries_view(e@);
            proof {
                lemma_json_entries_view(e@);
            }
            push_char(out, '{');
            let ghost start = out@;
            let mut i: usize = 0;
            proof {
                assert(ev.take(0) =~= Seq::<(Seq<char>, Json)>::empty());
                assert(start + members_text(Seq::<(Seq<char>, Json)>::empty()) =~= start);
            }
            while i < e.len()
                invariant
                    i <= e@.len(),
                    ev == json_entries_view(e@),
                    ev.len() == e@.len(),
                    forall|j: int| 0 <= j < e@.len() ==> #[trigger] ev[j] == (e@[j].0@, crate::json::json_view(e@[j].1)),
                    out@ == start + members_text(ev.take(i as int)),
                    *v == JsonValue::Object(*e),
                decreases e@.len() - i,
            {
                proof {
                    assert(ev.take(i + 1).drop_last() =~= ev.take(i as int));
                    assert(ev.take(i + 1).last() == ev[i as int]);
                    assert(decreases_to!(*v => v->Object_0));
                    assert(decreases_to!(e => e@));
                    assert(decreases_to!(e@ => e@[i as int]));
                    assert(decreases_to!(e@[i as int] => e@[i as int].1));
                }
                if i > 0 {
                    push_char(out, ',');
                }
                push_quoted(out, e[i].0.as_str());
                push_char(out, ':');
                write_json(out, &e[i].1);
                proof {
                    if i == 0 {
                        assert(ev.take(1) =~= seq![ev[0]]);
                        assert(out@ =~= start + members_text(ev.take(1)));
                    } else {
                        assert(out@ =~= start + members_text(ev.take(i + 1)));
                    }
                }
                i = i + 1;
            }
            proof {
                assert(ev.take(e@.len() as int) =~= ev);
            }
            push_char(out, '}');
            proof {
                assert(out@ =~= old(out)@ + json_text(v@));
            }
        },
    }
}

// ---------------------------------------------------------------------
// Value texts
// ---------------------------------------------------------------------

pub open spec fn bool_text(b: bool) -> Seq<char> {
    if b {
        "true"@
    } else {
        "false"@
    }
}

/// The text of a number value, or `absent` for anything else.
pub open spec fn number_text(v: Json, absent: Seq<char>) -> Seq<char> {
    match v {
        Json::Number(t) => t,
        _ => absent,
    }
}

/// The characters of a string value, or nothing for anything else.
pub open spec fn str_text(v: Json) -> Seq<char> {
    match v {
        Json::Str(s) => s,
        _ => Seq::empty(),
    }
}

/// The text shown after a node's key: its value, `None` or `Some(..)`
/// for optionals, the chosen variant of a radio group (`?` if none), and
/// `[checked/all]` for a checkbox list.
pub open spec fn format_text(n: NodeView) -> Seq<char> {
    match n.kind {
        KindView::String => str_text(n.value),
        KindView::Integer => number_text(n.value, "0"@),
        KindView::Float => number_text(n.value, "0.0"@),
        KindView::Bool => bool_text(bool_or_false(n.value)),
        KindView::Option { is_some, inner_kind } => if !is_some {
            "None"@
        } else {
            match inner_kind {
                Some(ik) => "Some("@ + match *ik {
                    KindView::String => str_text(n.value),
                    KindView::Integer | KindView::Float => number_text(n.value, "0"@),
                    KindView::Bool => bool_text(bool_or_false(n.value)),
                    _ => json_text(n.value),
                } + ")"@,
                None => Seq::empty(),
            }
        },
        KindView::RadioGroup { .. } => match first_selected(n.children) {
            Some(k) => n.children[k].key,
            None => "?"@,
        },
        KindView::Checkboxes { variants } => "["@ + decimal(checked_names(n.children).len()) + "/"@ + decimal(
            variants.len(),
        ) + "]"@,
        _ => Seq::empty(),
    }
}

fn str_text_exec(v: &JsonValue) -> (s: String)
    ensures
        s@ == str_text(v@),
{
    match v.as_str() {
        Some(t) => t.clone(),
        None => String::new(),
    }
}

fn number_text_exec(v: &JsonValue, absent: &str) -> (s: String)
    ensures
        s@ == number_text(v@, absent@),
{
    match v {
        JsonValue::Number(t) => t.clone(),
        _ => string_of(absent),
    }
}

fn bool_text_exec(v: &JsonValue) -> (s: String)
    ensures
        s@ == bool_text(bool_or_false(v@)),
{
    let b = match v.as_bool() {
        Some(b) => b,
        None => false,
    };
    if b {
        string_of("true")
    } else {
        string_of("false")
    }
}

/// The text shown after a node's key (see `format_text`).
pub fn format_value(node: &ConfigNode) -> (s: String)
    ensures
        s@ == format_text(node_view(*node)),
{
    proof {
        lemma_nodes_view(node.children@);
    }
    match &node.kind {
        NodeKind::String => str_text_exec(&node.value),
        NodeKind::Integer => number_text_exec(&node.value, "0"),
        NodeKind::Float => number_text_exec(&node.value, "0.0"),
        NodeKind::Bool => bool_text_exec(&node.value),
        NodeKind::Option { is_some, inner_kind } => {
            if !*is_some {
                string_of("None")
            } else {
                match inner_kind {
                    Some(ik) => {
                        let val = match &**ik {
                            NodeKind::String => str_text_exec(&node.value),
                            NodeKind::Integer | NodeKind::Float => number_text_exec(&node.value, "0"),
                            NodeKind::Bool => bool_text_exec(&node.value),
                            _ => {
                                let mut t = String::new();
                                write_json(&mut t, &node.value);
                                proof {
                                    assert(t@ =~= json_text(node.value@));
                                }
                                t
                            },
                        };
                        let ghost ikv = kind_view(**ik);
                        proof {
                            assert(node_view(*node).kind == KindView::Option { is_some: true, inner_kind: Some(Box::new(ikv)) });
                            assert(val@ == match ikv {
                                KindView::String => str_text(node.value@),
                                KindView::Integer | KindView::Float => number_text(node.value@, "0"@),
                                KindView::Bool => bool_text(bool_or_false(node.value@)),
                                _ => json_text(node.value@),
                            });
                        }
                        let a = concat_strings("Some(", val.as_str());
                        let r = concat_strings(a.as_str(), ")");
                        proof {
                            assert(r@ =~= format_text(node_view(*node)));
                        }
                        r
                    },
                    None => String::new(),
                }
            }
        },
        NodeKind::RadioGroup { .. } => {
            let ghost cv = nodes_view(node.children@);
            let mut i: usize = 0;
            while i < node.children.len()
                invariant
                    i <= node.children@.len(),
                    cv == nodes_view(node.children@),
                    cv.len() == node.children@.len(),
                    forall|j: int| 0 <= j < node.children@.len() ==> #[trigger] cv[j] == node_view(node.children@[j]),
                    forall|j: int| 0 <= j < i ==> !is_selected_item(#[trigger] cv[j]),
                    node_view(*node).kind is RadioGroup,
                decreases node.children@.len() - i,
            {
                if let NodeKind::RadioItem { selected: true, .. } = node.children[i].kind {
                    proof {
                        assert(is_selected_item(cv[i as int]));
                        lemma_first_selected(cv, i as int);
                    }
                    return node.children[i].key.clone();
                }
                proof {
                    assert(!is_selected_item(cv[i as int]));
                }
                i = i + 1;
            }
            string_of("?")
        },
        NodeKind::Checkboxes { variants } => {
            let checked = checked_names_exec(&node.children);
            proof {
                lemma_json_seq_view(checked@);
            }
            let a = concat_strings("[", u64_to_string(checked.len() as u64).as_str());
            let b = concat_strings(a.as_str(), "/");
            let c = concat_strings(b.as_str(), u64_to_string(variants.len() as u64).as_str());
            proof {
                assert(crate::node::strs_view(variants@).len() == variants@.len());
            }
            let r = concat_strings(c.as_str(), "]");
            proof {
                assert(checked@.len() == checked_names(nodes_view(node.children@)).len());
                assert(r@ =~= format_text(node_view(*node)));
            }
            r
        },
        _ => String::new(),
    }
}

// ---------------------------------------------------------------------
// Cells of a frame
// ---------------------------------------------------------------------

/// A rectangle of the terminal, in cells.
#[derive(Clone, Copy, Debug, PartialEq, Eq, Structural)]
pub struct Area {
    pub x: u16,
    pub y: u16,
    pub width: u16,
    pub height: u16,
}

/// The style a cell is drawn with; the widget gives each its colours.
#[derive(Clone, Copy, Debug, PartialEq, Eq, Structural)]
pub enum Paint {
    /// No style of its own.
    Plain,
    /// The background of the selected row.
    Highlight,
    Key,
    Value,
    /// The text being edited.
    Edit,
    /// Keys and values of nodes the filter does not let change.
    Disabled,
    /// The character under the edit cursor.
    Cursor,
    /// The help line.
    Help,
}

/// One cell write: a symbol (or only a style, for `None`) at `(x, y)`.
#[derive(Clone, Copy, Debug, PartialEq, Eq, Structural)]
pub struct Cell {
    pub x: u16,
    pub y: u16,
    pub symbol: Option<char>,
    pub paint: Paint,
}

/// How many characters of a text of `len` characters fit from column
/// `x` up to (not including) `max_x`.
pub open spec fn shown_len(x: int, max_x: int, len: nat) -> nat {
    if x < max_x {
        if len <= max_x - x {
            len
        } else {
            (max_x - x) as nat
        }
    } else {
        0
    }
}

/// The cells of text `s` written from column `x` on row `y`, cut at `max_x`.
pub open spec fn text_cells(x: int, y: u16, max_x: int, s: Seq<char>, p: Paint) -> Seq<Cell> {
    Seq::new(shown_len(x, max_x, s.len()), |i: int| Cell { x: (x + i) as u16, y, symbol: Some(s[i]), paint: p })
}

/// The column after text `s` written from `x`.
pub open spec fn text_end(x: int, max_x: int, s: Seq<char>) -> int {
    x + shown_len(x, max_x, s.len())
}

/// Two spaces per level of depth.
pub open spec fn indent_of(depth: nat) -> Seq<char> {
    Seq::new(2 * depth, |i: int| ' ')
}

/// The highlight of a whole row.
pub open spec fn fill_cells(x0: int, max_x: int, y: u16) -> Seq<Cell> {
    Seq::new(
        (if x0 < max_x { max_x - x0 } else { 0 }) as nat,
        |i: int| Cell { x: (x0 + i) as u16, y, symbol: None, paint: Paint::Highlight },
    )
}

/// The check mark or radio dot drawn before the key of a boolean, radio
/// item or checkbox item.
pub open spec fn indicator(n: NodeView) -> Option<Seq<char>> {
    match n.kind {
        KindView::Bool => Some(
            if bool_or_false(n.value) {
                seq!['\u{25A0}', ' ']
            } else {
                seq!['\u{25A1}', ' ']
            },
        ),
        KindView::RadioItem { selected, .. } => Some(
            if selected {
                seq!['\u{25CF}', ' ']
            } else {
                seq!['\u{25CB}', ' ']
            },
        ),
        KindView::CheckboxItem { checked } => Some(
            if checked {
                seq!['\u{25A0}', ' ']
            } else {
                seq!['\u{25A1}', ' ']
            },
        ),
        _ => None,
    }
}

/// The expand marker of a container, blank for other nodes.
pub open spec fn marker(n: NodeView, expanded: bool) -> Seq<char> {
    let open_mark = if expanded {
        seq!['\u{25BC}', ' ']
    } else {
        seq!['\u{25B6}', ' ']
    };
    match n.kind {
        KindView::Struct { .. } | KindView::RadioGroup { .. } | KindView::Checkboxes { .. } => open_mark,
        KindView::Option { is_some: true, .. } => if n.children.len() > 0 {
            open_mark
        } else {
            seq![' ', ' ']
        },
        _ => seq![' ', ' '],
    }
}

/// The column where a row's value starts, after indent, marker, key and
/// `": "`.
pub open spec fn value_x(n: NodeView, expanded: bool, x0: int, max_x: int) -> int {
    let x1 = text_end(x0, max_x, indent_of(n.depth as nat));
    let x2 = text_end(x1, max_x, marker(n, expanded));
    let x3 = text_end(x2, max_x, n.key);
    text_end(x3, max_x, seq![':', ' '])
}

/// The column of the edit cursor: the value column plus the characters
/// before the cursor (counted as a `u16`).
pub open spec fn cursor_x(n: NodeView, expanded: bool, x0: int, max_x: int, b: Seq<char>, p: nat) -> int {
    value_x(n, expanded, x0, max_x) + ((char_at_byte(b, p) as u16) as int)
}

/// Whether the row shows the edit buffer.
pub open spec fn shows_edit(n: NodeView, is_selected: bool, disabled: bool, edit: Option<(Seq<char>, nat)>) -> bool {
    indicator(n) is None && is_selected && !disabled && edit is Some
}

/// The highlight (when selected) and the indent of a row.
pub open spec fn row_lead(n: NodeView, is_selected: bool, x0: int, y: u16, max_x: int) -> Seq<Cell> {
    let fill = if is_selected {
        fill_cells(x0, max_x, y)
    } else {
        Seq::empty()
    };
    fill + text_cells(x0, y, max_x, indent_of(n.depth as nat), Paint::Plain)
}

pub open spec fn key_paint(disabled: bool) -> Paint {
    if disabled {
        Paint::Disabled
    } else {
        Paint::Key
    }
}

pub open spec fn value_paint(disabled: bool) -> Paint {
    if disabled {
        Paint::Disabled
    } else {
        Paint::Value
    }
}

/// After the indent, from column `x1`: indicator and key, or marker, key,
/// `": "` and the value or the edit buffer with its cursor.
pub open spec fn row_tail(
    n: NodeView,
    is_selected: bool,
    disabled: bool,
    expanded: bool,
    edit: Option<(Seq<char>, nat)>,
    x1: int,
    y: u16,
    max_x: int,
) -> (Seq<Cell>, Option<(u16, u16)>) {
    match indicator(n) {
        Some(ind) => (
            text_cells(x1, y, max_x, ind, value_paint(disabled)) + text_cells(
                text_end(x1, max_x, ind),
                y,
                max_x,
                n.key,
                key_paint(disabled),
            ),
            None,
        ),
        None => {
            let m = marker(n, expanded);
            let x2 = text_end(x1, max_x, m);
            let x3 = text_end(x2, max_x, n.key);
            let x4 = text_end(x3, max_x, seq![':', ' ']);
            let head = text_cells(x1, y, max_x, m, key_paint(disabled)) + text_cells(
                x2,
                y,
                max_x,
                n.key,
                key_paint(disabled),
            ) + text_cells(x3, y, max_x, seq![':', ' '], Paint::Plain);
            let v = value_cells(n, is_selected, disabled, edit, x4, y, max_x);
            (head + v.0, v.1)
        },
    }
}

/// The value part of a row from column `x4`: the edit buffer and cursor
/// on the selected, enabled row in edit mode, else the value's text.
pub open spec fn value_cells(
    n: NodeView,
    is_selected: bool,
    disabled: bool,
    edit: Option<(Seq<char>, nat)>,
    x4: int,
    y: u16,
    max_x: int,
) -> (Seq<Cell>, Option<(u16, u16)>) {
    if is_selected && !disabled && edit is Some {
        let b = edit->Some_0.0;
        let p = edit->Some_0.1;
        let cx = x4 + ((char_at_byte(b, p) as u16) as int);
        let under = if p < byte_len(b) {
            b[char_at_byte(b, p)]
        } else {
            ' '
        };
        let cur = if cx < max_x {
            seq![Cell { x: cx as u16, y, symbol: Some(under), paint: Paint::Cursor }]
        } else {
            Seq::empty()
        };
        (text_cells(x4, y, max_x, b, Paint::Edit) + cur, Some((cx as u16, y)))
    } else {
        (text_cells(x4, y, max_x, format_text(n), value_paint(disabled)), None)
    }
}

/// The cells of one row, and the cursor position when the row shows the
/// edit buffer.
pub open spec fn row_render(
    n: NodeView,
    is_selected: bool,
    disabled: bool,
    expanded: bool,
    edit: Option<(Seq<char>, nat)>,
    x0: int,
    y: u16,
    max_x: int,
) -> (Seq<Cell>, Option<(u16, u16)>) {
    let x1 = text_end(x0, max_x, indent_of(n.depth as nat));
    let t = row_tail(n, is_selected, disabled, expanded, edit, x1, y, max_x);
    (row_lead(n, is_selected, x0, y, max_x) + t.0, t.1)
}

/// The first row shown: the selection is kept within `height` rows.
pub open spec fn scrolled(selected: usize, scroll: usize, height: int) -> int {
    let s1 = if selected < scroll {
        selected as int
    } else {
        scroll as int
    };
    if selected >= s1 + height {
        selected - height + 1
    } else {
        s1
    }
}

/// Rows of the tree: all but the help line when there are three or more.
pub open spec fn tree_height(h: u16) -> int {
    if h >= 3 {
        h - 1
    } else {
        h as int
    }
}

/// How many rows are drawn.
pub open spec fn row_count(visible: int, scroll: int, rows: int) -> int {
    if scroll < visible {
        if rows <= visible - scroll {
            rows
        } else {
            visible - scroll
        }
    } else {
        0
    }
}

/// Row `i` of the frame of `st` in `inner`.
pub open spec fn row_at(st: TreeState, inner: Area, i: int) -> (Seq<Cell>, Option<(u16, u16)>) {
    let idx = st.scroll_offset + i;
    let e = st.visible_list()[idx];
    row_render(
        e.0,
        idx == st.selected,
        !st.allows(e.1),
        st.expanded_set().contains(e.1),
        edit_view(st.edit_mode),
        inner.x as int,
        (inner.y + i) as u16,
        inner.x + inner.width,
    )
}

/// The first `n` rows, and the cursor position of the last row that
/// shows the edit buffer.
pub open spec fn rows_render(st: TreeState, inner: Area, n: int) -> (Seq<Cell>, Option<(u16, u16)>)
    decreases n,
{
    if n <= 0 {
        (Seq::empty(), None)
    } else {
        let p = rows_render(st, inner, n - 1);
        let r = row_at(st, inner, n - 1);
        (p.0 + r.0, if r.1 is Some { r.1 } else { p.1 })
    }
}

pub open spec fn help_text(m: EditMode) -> Seq<char> {
    match m {
        EditMode::Normal => "\u{2191}\u{2193} navigate  \u{2190}\u{2192} collapse/expand  Enter edit  Space toggle  q quit"@,
        EditMode::Editing { .. } => "Enter confirm  Esc cancel  \u{2190}\u{2192} move cursor"@,
    }
}

/// Everything drawn for state `st` (already scrolled) in `inner`, and the
/// cursor position: the rows, then the help line when three or more rows
/// fit.
pub open spec fn frame_render(st: TreeState, inner: Area) -> (Seq<Cell>, Option<(u16, u16)>) {
    let n = row_count(st.visible_list().len() as int, st.scroll_offset as int, tree_height(inner.height));
    let rows = rows_render(st, inner, n);
    let help = if inner.height >= 3 {
        text_cells(inner.x as int, (inner.y + inner.height - 1) as u16, inner.x + inner.width, help_text(st.edit_mode), Paint::Help)
    } else {
        Seq::empty()
    };
    (rows.0 + help, rows.1)
}

/// The state with its scroll offset adjusted for `height` rows.
pub open spec fn scrolled_state(st: TreeState, height: u16) -> TreeState {
    TreeState { scroll_offset: scrolled(st.selected, st.scroll_offset, height as int) as usize, ..st }
}

/// The edit cursor's column fits in a `u16` (it is computed with `u16`
/// addition).
pub open spec fn cursor_fits(st: TreeState, inner: Area) -> bool {
    let n = row_count(st.visible_list().len() as int, st.scroll_offset as int, tree_height(inner.height));
    let i = st.selected - st.scroll_offset;
    0 <= i < n ==> {
        let e = st.visible_list()[st.selected as int];
        let ed = edit_view(st.edit_mode);
        shows_edit(e.0, true, !st.allows(e.1), ed) ==> cursor_x(
            e.0,
            st.expanded_set().contains(e.1),
            inner.x as int,
            inner.x + inner.width,
            ed->Some_0.0,
            ed->Some_0.1,
        ) <= u16::MAX
    }
}

/// Writes the text `s` from column `x`, cut at `max_x`; returns the
/// column after it.
fn paint_text(cells: &mut Vec<Cell>, x: u16, y: u16, max_x: u16, s: &Vec<char>, p: Paint) -> (end: u16)
    ensures
        final(cells)@ == old(cells)@ + text_cells(x as int, y, max_x as int, s@, p),
        end == text_end(x as int, max_x as int, s@),
{
    let mut cx = x;
    let mut i: usize = 0;
    while i < s.len() && cx < max_x
        invariant
            i <= s@.len(),
            cx == x + i,
            x + i <= max_x || i == 0,
            final(cells)@ == final(cells)@,
            cells@ == old(cells)@ + Seq::new(i as nat, |j: int| Cell { x: (x + j) as u16, y, symbol: Some(s@[j]), paint: p }),
        decreases s@.len() - i,
    {
        let ghost before = cells@;
        cells.push(Cell { x: cx, y, symbol: Some(s[i]), paint: p });
        proof {
            assert(cells@ =~= old(cells)@ + Seq::new((i + 1) as nat, |j: int| Cell { x: (x + j) as u16, y, symbol: Some(s@[j]), paint: p }));
        }
        cx = cx + 1;
        i = i + 1;
    }
    proof {
        assert(i == shown_len(x as int, max_x as int, s@.len()));
        assert(cells@ =~= old(cells)@ + text_cells(x as int, y, max_x as int, s@, p));
    }
    cx
}

/// Writes `2 * pairs` spaces from column `x`, cut at `max_x`.
fn paint_indent(cells: &mut Vec<Cell>, x: u16, y: u16, max_x: u16, pairs: usize) -> (end: u16)
    ensures
        final(cells)@ == old(cells)@ + text_cells(x as int, y, max_x as int, indent_of(pairs as nat), Paint::Plain),
        end == text_end(x as int, max_x as int, indent_of(pairs as nat)),
{
    let ghost sp = indent_of(pairs as nat);
    let mut cx = x;
    let mut i: usize = 0;
    while i / 2 < pairs && cx < max_x
        invariant
            i <= sp.len(),
            sp == indent_of(pairs as nat),
            cx == x + i,
            x + i <= max_x || i == 0,
            cells@ == old(cells)@ + Seq::new(i as nat, |j: int| Cell { x: (x + j) as u16, y, symbol: Some(sp[j]), paint: Paint::Plain }),
        decreases sp.len() - i,
    {
        cells.push(Cell { x: cx, y, symbol: Some(' '), paint: Paint::Plain });
        proof {
            assert(sp[i as int] == ' ');
            assert(cells@ =~= old(cells)@ + Seq::new((i + 1) as nat, |j: int| Cell { x: (x + j) as u16, y, symbol: Some(sp[j]), paint: Paint::Plain }));
        }
        cx = cx + 1;
        i = i + 1;
    }
    proof {
        assert(i == shown_len(x as int, max_x as int, sp.len()));
        assert(cells@ =~= old(cells)@ + text_cells(x as int, y, max_x as int, sp, Paint::Plain));
    }
    cx
}

/// Writes the value part of a row (see `value_cells`).
#[verifier::rlimit(40)]
fn render_value(
    cells: &mut Vec<Cell>,
    node: &ConfigNode,
    is_selected: bool,
    disabled: bool,
    edit: &EditMode,
    x4: u16,
    y: u16,
    max_x: u16,
) -> (cursor: Option<(u16, u16)>)
    requires
        edit_ok(*edit),
        is_selected && !disabled && edit_view(*edit) is Some ==> x4 + ((char_at_byte(
            edit_view(*edit)->Some_0.0,
            edit_view(*edit)->Some_0.1,
        ) as u16) as int) <= u16::MAX,
    ensures
        final(cells)@ == old(cells)@ + value_cells(node_view(*node), is_selected, disabled, edit_view(*edit), x4 as int, y, max_x as int).0,
        cursor == value_cells(node_view(*node), is_selected, disabled, edit_view(*edit), x4 as int, y, max_x as int).1,
{
    let ghost start = cells@;
    if is_selected && !disabled {
        if let EditMode::Editing { buffer, cursor_pos } = edit {
            let cs = crate::text::chars_of(buffer.as_str());
            let k = char_index_at(&cs, *cursor_pos);
            let cx = x4 + (#[verifier::truncate] (k as u16));
            paint_text(cells, x4, y, max_x, &cs, Paint::Edit);
            let ghost mid = cells@;
            if cx < max_x {
                let under = if *cursor_pos < crate::text::byte_len_exec(buffer.as_str()) {
                    proof {
                        if k == cs@.len() {
                            lemma_take_all(cs@);
                        }
                    }
                    cs[k]
                } else {
                    ' '
                };
                cells.push(Cell { x: cx, y, symbol: Some(under), paint: Paint::Cursor });
            }
            proof {
                assert(cells@ =~= start + value_cells(node_view(*node), is_selected, disabled, edit_view(*edit), x4 as int, y, max_x as int).0);
            }
            return Some((cx, y));
        }
    }
    let vs = if disabled {
        Paint::Disabled
    } else {
        Paint::Value
    };
    let text = format_value(node);
    let tc = crate::text::chars_of(text.as_str());
    paint_text(cells, x4, y, max_x, &tc, vs);
    None
}

/// Writes what follows the indent of a row (see `row_tail`).
#[verifier::rlimit(80)]
fn render_row_tail(
    cells: &mut Vec<Cell>,
    node: &ConfigNode,
    is_selected: bool,
    disabled: bool,
    expanded: bool,
    edit: &EditMode,
    x1: u16,
    y: u16,
    max_x: u16,
) -> (cursor: Option<(u16, u16)>)
    requires
        edit_ok(*edit),
        x1 <= max_x,
        shows_edit(node_view(*node), is_selected, disabled, edit_view(*edit)) ==> text_end(
            text_end(text_end(x1 as int, max_x as int, marker(node_view(*node), expanded)), max_x as int, node_view(*node).key),
            max_x as int,
            seq![':', ' '],
        ) + ((char_at_byte(edit_view(*edit)->Some_0.0, edit_view(*edit)->Some_0.1) as u16) as int) <= u16::MAX,
    ensures
        final(cells)@ == old(cells)@ + row_tail(node_view(*node), is_selected, disabled, expanded, edit_view(*edit), x1 as int, y, max_x as int).0,
        cursor == row_tail(node_view(*node), is_selected, disabled, expanded, edit_view(*edit), x1 as int, y, max_x as int).1,
{
    let ghost nv = node_view(*node);
    let ghost start = cells@;
    let ks = if disabled {
        Paint::Disabled
    } else {
        Paint::Key
    };
    let vs = if disabled {
        Paint::Disabled
    } else {
        Paint::Value
    };
    let key = crate::text::chars_of(node.key.as_str());
    let ind: Option<Vec<char>> = match node.kind {
        NodeKind::Bool => {
            let checked = match node.value.as_bool() {
                Some(b) => b,
                None => false,
            };
            Some(if checked { vec!['\u{25A0}', ' '] } else { vec!['\u{25A1}', ' '] })
        },
        NodeKind::RadioItem { selected, .. } => Some(if selected { vec!['\u{25CF}', ' '] } else { vec!['\u{25CB}', ' '] }),
        NodeKind::CheckboxItem { checked } => Some(if checked { vec!['\u{25A0}', ' '] } else { vec!['\u{25A1}', ' '] }),
        _ => None,
    };
    proof {
        assert(ind matches Some(v) ==> indicator(nv) == Some(v@));
        assert(ind is None ==> indicator(nv) is None);
    }
    if let Some(ind) = ind {
        let x2 = paint_text(cells, x1, y, max_x, &ind, vs);
        paint_text(cells, x2, y, max_x, &key, ks);
        proof {
            assert(cells@ =~= start + row_tail(nv, is_selected, disabled, expanded, edit_view(*edit), x1 as int, y, max_x as int).0);
        }
        return None;
    }
    proof {
        lemma_nodes_view(node.children@);
    }
    let open_mark: Vec<char> = if expanded { vec!['\u{25BC}', ' '] } else { vec!['\u{25B6}', ' '] };
    let m: Vec<char> = match &node.kind {
        NodeKind::Struct { .. } | NodeKind::RadioGroup { .. } | NodeKind::Checkboxes { .. } => open_mark,
        NodeKind::Option { is_some: true, .. } => if node.children.len() > 0 { open_mark } else { vec![' ', ' '] },
        _ => vec![' ', ' '],
    };
    proof {
        assert(m@ == marker(nv, expanded));
    }
    let x2 = paint_text(cells, x1, y, max_x, &m, ks);
    let x3 = paint_text(cells, x2, y, max_x, &key, ks);
    let sep: Vec<char> = vec![':', ' '];
    proof {
        assert(sep@ == seq![':', ' ']);
    }
    let x4 = paint_text(cells, x3, y, max_x, &sep, Paint::Plain);
    let cursor = render_value(cells, node, is_selected, disabled, edit, x4, y, max_x);
    proof {
        assert(cells@ =~= start + row_tail(nv, is_selected, disabled, expanded, edit_view(*edit), x1 as int, y, max_x as int).0);
    }
    cursor
}

/// Writes the cells of one row (see `row_render`); returns the cursor
/// position when the row shows the edit buffer.
fn render_row(
    cells: &mut Vec<Cell>,
    node: &ConfigNode,
    is_selected: bool,
    disabled: bool,
    expanded: bool,
    edit: &EditMode,
    x0: u16,
    y: u16,
    max_x: u16,
) -> (cursor: Option<(u16, u16)>)
    requires
        x0 <= max_x,
        edit_ok(*edit),
        shows_edit(node_view(*node), is_selected, disabled, edit_view(*edit)) ==> cursor_x(
            node_view(*node),
            expanded,
            x0 as int,
            max_x as int,
            edit_view(*edit)->Some_0.0,
            edit_view(*edit)->Some_0.1,
        ) <= u16::MAX,
    ensures
        final(cells)@ == old(cells)@ + row_render(
            node_view(*node),
            is_selected,
            disabled,
            expanded,
            edit_view(*edit),
            x0 as int,
            y,
            max_x as int,
        ).0,
        cursor == row_render(node_view(*node), is_selected, disabled, expanded, edit_view(*edit), x0 as int, y, max_x as int).1,
{
    let ghost start = cells@;
    if is_selected {
        let mut col = x0;
        while col < max_x
            invariant
                x0 <= col <= max_x,
                cells@ == start + Seq::new((col - x0) as nat, |i: int| Cell { x: (x0 + i) as u16, y, symbol: None, paint: Paint::Highlight }),
            decreases max_x - col,
        {
            cells.push(Cell { x: col, y, symbol: None, paint: Paint::Highlight });
            proof {
                assert(cells@ =~= start + Seq::new((col + 1 - x0) as nat, |i: int| Cell { x: (x0 + i) as u16, y, symbol: None, paint: Paint::Highlight }));
            }
            col = col + 1;
        }
        proof {
            assert(cells@ =~= start + fill_cells(x0 as int, max_x as int, y));
        }
    } else {
        proof {
            assert(cells@ =~= start + Seq::<Cell>::empty());
        }
    }
    let x1 = paint_indent(cells, x0, y, max_x, node.depth);
    proof {
        assert(cells@ =~= start + row_lead(node_view(*node), is_selected, x0 as int, y, max_x as int));
    }
    let cursor = render_row_tail(cells, node, is_selected, disabled, expanded, edit, x1, y, max_x);
    proof {
        assert(cells@ =~= start + row_render(node_view(*node), is_selected, disabled, expanded, edit_view(*edit), x0 as int, y, max_x as int).0);
    }
    cursor
}

/// Lays out one frame of the tree in `inner`: keeps the selection in
/// view by scrolling, returns every cell write in drawing order, and
/// records where the terminal cursor goes while editing. Nothing is drawn
/// in an empty area.
pub fn render_tree(state: &mut TreeState, inner: Area) -> (cells: Vec<Cell>)
    requires
        old(state).wf(),
        inner.x + inner.width <= u16::MAX,
        inner.y + inner.height <= u16::MAX,
        (if old(state).selected < old(state).scroll_offset {
            old(state).selected as int
        } else {
            old(state).scroll_offset as int
        }) + inner.height <= usize::MAX,
        cursor_fits(scrolled_state(*old(state), inner.height), inner),
    ensures
        final(state).wf(),
        if inner.height == 0 || inner.width == 0 {
            cells@.len() == 0 && old(state).unchanged(*final(state))
        } else {
            &&& final(state).scroll_offset == scrolled(old(state).selected, old(state).scroll_offset, inner.height as int)
            &&& final(state).nodes@ == old(state).nodes@
            &&& final(state).expanded@ == old(state).expanded@
            &&& final(state).selected == old(state).selected
            &&& final(state).edit_mode == old(state).edit_mode
            &&& final(state).defs@ == old(state).defs@
            &&& final(state).filter == old(state).filter
            &&& cells@ == frame_render(scrolled_state(*old(state), inner.height), inner).0
            &&& final(state).cursor_position == frame_render(scrolled_state(*old(state), inner.height), inner).1
        },
{
    if inner.height == 0 || inner.width == 0 {
        return Vec::new();
    }
    let height = inner.height as usize;
    if state.selected < state.scroll_offset {
        state.scroll_offset = state.selected;
    }
    if state.selected >= state.scroll_offset + height {
        state.scroll_offset = state.selected - height + 1;
    }
    let ghost st = *state;
    proof {
        assert(st == scrolled_state(*old(state), inner.height));
    }
    let visible = state.visible_nodes();
    let tree_rows: usize = if inner.height >= 3 {
        (inner.height - 1) as usize
    } else {
        inner.height as usize
    };
    let vlen = visible.len();
    let remaining: usize = if state.scroll_offset < visible.len() {
        visible.len() - state.scroll_offset
    } else {
        0
    };
    let max_x = inner.x + inner.width;
    let mut cells: Vec<Cell> = Vec::new();
    let mut cursor: Option<(u16, u16)> = None;
    let mut i: usize = 0;
    while i < tree_rows && i < remaining
        invariant
            *state == st,
            st.wf(),
            vn_views(visible@) == st.visible_list(),
            vlen == visible@.len(),
            tree_rows == tree_height(inner.height),
            remaining == (if st.scroll_offset < visible@.len() { visible@.len() - st.scroll_offset } else { 0 }),
            max_x == inner.x + inner.width,
            inner.x + inner.width <= u16::MAX,
            inner.y + inner.height <= u16::MAX,
            i <= tree_rows,
            i <= remaining,
            cursor_fits(st, inner),
            cells@ == rows_render(st, inner, i as int).0,
            cursor == rows_render(st, inner, i as int).1,
        decreases tree_rows - i,
    {
        proof {
            assert(state.scroll_offset + i < visible@.len());
        }
        let idx = state.scroll_offset + i;
        let vn = &visible[idx];
        proof {
            assert(vn_views(visible@)[idx as int] == (node_view(*vn.node), vn.path@));
        }
        let y = inner.y + (i as u16);
        let disabled = !state.is_enabled(vn.path.as_str());
        let expanded = expanded_contains(&state.expanded, vn.path.as_str());
        let c = render_row(&mut cells, vn.node, idx == state.selected, disabled, expanded, &state.edit_mode, inner.x, y, max_x);
        if c.is_some() {
            cursor = c;
        }
        proof {
            assert(cells@ =~= rows_render(st, inner, i + 1).0);
        }
        i = i + 1;
    }
    proof {
        assert(i == row_count(st.visible_list().len() as int, st.scroll_offset as int, tree_height(inner.height)));
    }
    state.cursor_position = cursor;
    if inner.height >= 3 {
        let help: Vec<char> = match &state.edit_mode {
            EditMode::Normal => crate::text::chars_of("\u{2191}\u{2193} navigate  \u{2190}\u{2192} collapse/expand  Enter edit  Space toggle  q quit"),
            EditMode::Editing { .. } => crate::text::chars_of("Enter confirm  Esc cancel  \u{2190}\u{2192} move cursor"),
        };
        paint_text(&mut cells, inner.x, inner.y + inner.height - 1, max_x, &help, Paint::Help);
    }
    proof {
        assert(cells@ =~= frame_render(st, inner).0);
    }
    cells
}

fn text_end_exec(x: u16, max_x: u16, len: usize) -> (e: u16)
    ensures
        e == x + shown_len(x as int, max_x as int, len as nat),
{
    if x < max_x {
        if len <= (max_x - x) as usize {
            x + (len as u16)
        } else {
            max_x
        }
    } else {
        x
    }
}

/// Whether the frame's edit cursor column fits in a `u16`, so that
/// `render_tree` can lay the frame out (see `cursor_fits`).
pub fn frame_fits(state: &TreeState, inner: Area) -> (r: bool)
    requires
        state.wf(),
        inner.x + inner.width <= u16::MAX,
        (if state.selected < state.scroll_offset {
            state.selected as int
        } else {
            state.scroll_offset as int
        }) + inner.height <= usize::MAX,
    ensures
        r == cursor_fits(scrolled_state(*state, inner.height), inner),
{
    let ghost st = scrolled_state(*state, inner.height);
    if inner.height == 0 {
        return true;
    }
    let height = inner.height as usize;
    let mut scroll = state.scroll_offset;
    if state.selected < scroll {
        scroll = state.selected;
    }
    if state.selected >= scroll + height {
        scroll = state.selected - height + 1;
    }
    let visible = state.visible_nodes();
    proof {
        assert(st.visible_list() == state.visible_list());
    }
    let tree_rows: usize = if inner.height >= 3 {
        (inner.height - 1) as usize
    } else {
        inner.height as usize
    };
    let count: usize = if scroll < visible.len() {
        if tree_rows <= visible.len() - scroll {
            tree_rows
        } else {
            visible.len() - scroll
        }
    } else {
        0
    };
    if state.selected < scroll || state.selected - scroll >= count {
        return true;
    }
    let vn = &visible[state.selected];
    proof {
        assert(vn_views(visible@)[state.selected as int] == (node_view(*vn.node), vn.path@));
    }
    let node = vn.node;
    let has_indicator = match node.kind {
        NodeKind::Bool | NodeKind::RadioItem { .. } | NodeKind::CheckboxItem { .. } => true,
        _ => false,
    };
    if has_indicator || !state.is_enabled(vn.path.as_str()) {
        return true;
    }
    match &state.edit_mode {
        EditMode::Normal => true,
        EditMode::Editing { buffer, cursor_pos } => {
            let max_x = inner.x + inner.width;
            let x0 = inner.x;
            // the indent: two spaces per level
            let x1 = if x0 < max_x {
                if node.depth <= ((max_x - x0) as usize) / 2 {
                    x0 + (2 * node.depth) as u16
                } else {
                    max_x
                }
            } else {
                x0
            };
            proof {
                assert(x1 == text_end(x0 as int, max_x as int, indent_of(node.depth as nat)));
            }
            let expanded = expanded_contains(&state.expanded, vn.path.as_str());
            proof {
                lemma_nodes_view(node.children@);
                assert(marker(node_view(*node), expanded).len() == 2);
            }
            let x2 = text_end_exec(x1, max_x, 2);
            let key = crate::text::chars_of(node.key.as_str());
            let x3 = text_end_exec(x2, max_x, key.len());
            let x4 = text_end_exec(x3, max_x, 2);
            let cs = crate::text::chars_of(buffer.as_str());
            let k = char_index_at(&cs, *cursor_pos);
            (x4 as u32) + ((#[verifier::truncate] (k as u16)) as u32) <= 65535
        },
    }
}

} // verus!
