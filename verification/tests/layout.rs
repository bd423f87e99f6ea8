use schema_tui::json::JsonValue;
use schema_tui::layout::{format_value, frame_fits, render_tree, Area, Cell, Paint};
use schema_tui::node::{ConfigNode, NodeKind};
use schema_tui::state::{EditMode, TreeState};

fn leaf(key: &str, kind: NodeKind, value: JsonValue) -> ConfigNode {
    ConfigNode {
        key: key.to_string(),
        kind,
        value,
        children: Vec::new(),
        depth: 0,
        description: None,
        inner_schema: None,
    }
}

fn s(t: &str) -> JsonValue {
    JsonValue::String(t.to_string())
}

fn num(t: &str) -> JsonValue {
    JsonValue::Number(t.to_string())
}

fn opt(inner: Option<NodeKind>, is_some: bool) -> NodeKind {
    NodeKind::Option { is_some, inner_kind: inner.map(Box::new) }
}

#[test]
fn values_format_by_kind() {
    assert_eq!(format_value(&leaf("a", NodeKind::String, s("hi"))), "hi");
    assert_eq!(format_value(&leaf("a", NodeKind::String, JsonValue::Null)), "");
    assert_eq!(format_value(&leaf("a", NodeKind::Integer, num("12"))), "12");
    assert_eq!(format_value(&leaf("a", NodeKind::Integer, JsonValue::Null)), "0");
    assert_eq!(format_value(&leaf("a", NodeKind::Float, JsonValue::Null)), "0.0");
    assert_eq!(format_value(&leaf("a", NodeKind::Bool, JsonValue::Bool(true))), "true");
    assert_eq!(format_value(&leaf("a", NodeKind::Bool, s("x"))), "false");
    assert_eq!(format_value(&leaf("a", opt(Some(NodeKind::String), false), JsonValue::Null)), "None");
    assert_eq!(format_value(&leaf("a", opt(Some(NodeKind::String), true), s("x"))), "Some(x)");
    assert_eq!(format_value(&leaf("a", opt(Some(NodeKind::Integer), true), num("5"))), "Some(5)");
    assert_eq!(format_value(&leaf("a", opt(Some(NodeKind::Float), true), s("?"))), "Some(0)");
    assert_eq!(format_value(&leaf("a", opt(Some(NodeKind::Bool), true), JsonValue::Bool(true))), "Some(true)");
    assert_eq!(format_value(&leaf("a", opt(None, true), JsonValue::Null)), "");
    let odd = NodeKind::Struct { struct_name: "T".to_string() };
    assert_eq!(
        format_value(&leaf("a", opt(Some(odd), true), JsonValue::Array(vec![s("q\"")]))),
        "Some([\"q\\\"\"])"
    );
    assert_eq!(format_value(&leaf("a", NodeKind::Struct { struct_name: "T".to_string() }, JsonValue::Null)), "");
    assert_eq!(format_value(&leaf("a", NodeKind::CheckboxItem { checked: true }, JsonValue::Bool(true))), "");
}

#[test]
fn groups_format_their_items() {
    let mut group = leaf("mode", NodeKind::RadioGroup { variants: vec!["A".to_string(), "B".to_string()] }, s("B"));
    group.children = vec![
        leaf("A", NodeKind::RadioItem { selected: false, is_struct: false }, JsonValue::Bool(false)),
        leaf("B", NodeKind::RadioItem { selected: true, is_struct: false }, JsonValue::Bool(true)),
    ];
    assert_eq!(format_value(&group), "B");
    group.children[1].kind = NodeKind::RadioItem { selected: false, is_struct: false };
    assert_eq!(format_value(&group), "?");

    let variants: Vec<String> = ["a", "b", "c", "d", "e"].iter().map(|v| v.to_string()).collect();
    let mut boxes = leaf("f", NodeKind::Checkboxes { variants: variants.clone() }, JsonValue::Null);
    boxes.children = variants
        .iter()
        .enumerate()
        .map(|(i, v)| leaf(v, NodeKind::CheckboxItem { checked: i % 2 == 0 }, JsonValue::Bool(i % 2 == 0)))
        .collect();
    assert_eq!(format_value(&boxes), "[3/5]");
}

fn small_state(fields: &[(&str, JsonValue)]) -> TreeState {
    let props: Vec<(String, JsonValue)> = fields
        .iter()
        .map(|(k, v)| {
            let t = match v {
                JsonValue::Bool(_) => "boolean",
                _ => "string",
            };
            (k.to_string(), JsonValue::Object(vec![("type".to_string(), s(t))]))
        })
        .collect();
    let schema = JsonValue::Object(vec![("type".to_string(), s("object")), ("properties".to_string(), JsonValue::Object(props))]);
    let value = JsonValue::Object(fields.iter().map(|(k, v)| (k.to_string(), v.deep_clone())).collect());
    TreeState::new(&schema, &value)
}

fn line(cells: &[Cell], y: u16) -> String {
    let mut chars: Vec<(u16, char)> = Vec::new();
    for c in cells.iter().filter(|c| c.y == y) {
        if let Some(ch) = c.symbol {
            chars.retain(|(x, _)| *x != c.x);
            chars.push((c.x, ch));
        }
    }
    chars.sort();
    chars.iter().map(|(_, c)| *c).collect()
}

#[test]
fn a_frame_draws_rows_and_help() {
    let mut state = small_state(&[("name", s("ab")), ("on", JsonValue::Bool(true))]);
    let area = Area { x: 0, y: 0, width: 12, height: 4 };
    assert!(frame_fits(&state, area));
    let cells = render_tree(&mut state, area);
    assert_eq!(line(&cells, 0), "  name: ab");
    assert_eq!(line(&cells, 1), "\u{25A0} on");
    assert_eq!(line(&cells, 2), "");
    assert_eq!(line(&cells, 3), "\u{2191}\u{2193} navigate ");
    let highlighted = cells.iter().filter(|c| c.y == 0 && c.paint == Paint::Highlight && c.symbol.is_none()).count();
    assert_eq!(highlighted, 12);
    assert!(cells.iter().any(|c| c.y == 0 && c.symbol == Some('a') && c.paint == Paint::Value));
    assert!(cells.iter().any(|c| c.y == 0 && c.symbol == Some('n') && c.paint == Paint::Key));
    assert!(cells.iter().all(|c| c.y != 1 || c.paint != Paint::Highlight));
    assert_eq!(state.cursor_position, None);
}

#[test]
fn a_frame_shows_the_edit_cursor() {
    let mut state = small_state(&[("name", s("ab")), ("on", JsonValue::Bool(true))]);
    state.start_edit();
    let area = Area { x: 2, y: 1, width: 14, height: 4 };
    let cells = render_tree(&mut state, area);
    assert_eq!(state.cursor_position, Some((12, 1)));
    assert!(cells.iter().any(|c| c.x == 12 && c.y == 1 && c.symbol == Some(' ') && c.paint == Paint::Cursor));
    assert!(cells.iter().any(|c| c.x == 10 && c.y == 1 && c.symbol == Some('a') && c.paint == Paint::Edit));
    assert_eq!(line(&cells, 4), "Enter confirm ");
    state.edit_cursor_left();
    let _ = render_tree(&mut state, area);
    assert_eq!(state.cursor_position, Some((11, 1)));
    state.cancel_edit();
    let _ = render_tree(&mut state, area);
    assert_eq!(state.cursor_position, None);
}

#[test]
fn a_frame_scrolls_to_the_selection() {
    let names: Vec<String> = (0..10).map(|i| format!("f{}", i)).collect();
    let fields: Vec<(&str, JsonValue)> = names.iter().map(|n| (n.as_str(), s("v"))).collect();
    let mut state = small_state(&fields);
    state.selected = 5;
    let cells = render_tree(&mut state, Area { x: 0, y: 0, width: 20, height: 4 });
    assert_eq!(state.scroll_offset, 2);
    assert_eq!(line(&cells, 0), "  f2: v");
    state.selected = 1;
    let cells = render_tree(&mut state, Area { x: 0, y: 0, width: 20, height: 4 });
    assert_eq!(state.scroll_offset, 1);
    assert_eq!(line(&cells, 0), "  f1: v");
    assert!(state.scroll_offset <= state.selected && state.selected < state.scroll_offset + 4);
}

#[test]
fn an_empty_area_draws_nothing() {
    let mut state = small_state(&[("name", s("ab"))]);
    state.selected = 0;
    state.scroll_offset = 3;
    let cells = render_tree(&mut state, Area { x: 0, y: 0, width: 0, height: 5 });
    assert!(cells.is_empty());
    assert_eq!(state.scroll_offset, 3);
    let cells = render_tree(&mut state, Area { x: 0, y: 0, width: 5, height: 1 });
    assert_eq!(line(&cells, 0), "  nam");
    assert_eq!(state.scroll_offset, 0);
}

#[test]
fn edit_mode_is_plain_data() {
    let m = EditMode::Editing { buffer: "x".to_string(), cursor_pos: 1 };
    assert_eq!(m.clone(), m);
    assert_ne!(m, EditMode::Normal);
}
