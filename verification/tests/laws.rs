use schema_tui::event::{handle_key_event, EventResult, KeyCode, KeyPress};
use schema_tui::json::JsonValue;
use schema_tui::state::{EditMode, PathFilter, TreeState};

fn s(t: &str) -> JsonValue {
    JsonValue::String(t.to_string())
}

fn typed(t: &str) -> JsonValue {
    JsonValue::Object(vec![("type".to_string(), s(t))])
}

/// A flat config: a string `name`, an integer `count`, a boolean `on`,
/// and a struct `inner` with a string `label`.
fn state() -> TreeState {
    let inner = JsonValue::Object(vec![
        ("type".to_string(), s("object")),
        ("properties".to_string(), JsonValue::Object(vec![("label".to_string(), typed("string"))])),
    ]);
    let schema = JsonValue::Object(vec![(
        "properties".to_string(),
        JsonValue::Object(vec![
            ("name".to_string(), typed("string")),
            ("count".to_string(), typed("integer")),
            ("on".to_string(), typed("boolean")),
            ("inner".to_string(), inner),
        ]),
    )]);
    let value = JsonValue::Object(vec![
        ("name".to_string(), s("abc")),
        ("count".to_string(), JsonValue::Number("-42".to_string())),
        ("on".to_string(), JsonValue::Bool(true)),
        ("inner".to_string(), JsonValue::Object(vec![("label".to_string(), s("x"))])),
    ]);
    TreeState::new(&schema, &value)
}

fn buffer(st: &TreeState) -> (String, usize) {
    match &st.edit_mode {
        EditMode::Editing { buffer, cursor_pos } => (buffer.clone(), *cursor_pos),
        EditMode::Normal => panic!("not editing"),
    }
}

fn editing(text: &str, pos: usize) -> TreeState {
    let mut st = state();
    st.edit_mode = EditMode::Editing { buffer: text.to_string(), cursor_pos: pos };
    st
}

#[test]
fn law_up_then_down_returns() {
    let mut st = state();
    st.selected = 2;
    st.select_prev();
    st.select_next();
    assert_eq!(st.selected, 2);
    st.select_next();
    st.select_prev();
    assert_eq!(st.selected, 2);
}

#[test]
fn law_backspace_undoes_typing() {
    for (text, pos) in [("aé€", 0usize), ("aé€", 3), ("aé€", 6), ("", 0)] {
        let mut st = editing(text, pos);
        st.edit_insert_char('ß');
        st.edit_backspace();
        assert_eq!(buffer(&st), (text.to_string(), pos));
    }
}

#[test]
fn law_left_and_right_undo_each_other() {
    let mut st = editing("aé€", 3);
    st.edit_cursor_right();
    st.edit_cursor_left();
    assert_eq!(buffer(&st), ("aé€".to_string(), 3));
    st.edit_cursor_left();
    st.edit_cursor_right();
    assert_eq!(buffer(&st), ("aé€".to_string(), 3));
}

#[test]
fn law_delete_after_left_undoes_typing() {
    let mut st = editing("aé€", 1);
    st.edit_insert_char('x');
    st.edit_cursor_left();
    st.edit_delete();
    assert_eq!(buffer(&st), ("aé€".to_string(), 1));
}

#[test]
fn law_integer_text_round_trip() {
    let mut st = state();
    st.selected = 1;
    st.start_edit();
    assert_eq!(buffer(&st), ("-42".to_string(), 3));
    assert!(st.confirm_edit(None));
    assert_eq!(st.to_value().get("count"), Some(&JsonValue::Number("-42".to_string())));
}

#[test]
fn law_toggle_bool_twice_restores() {
    let mut st = state();
    st.selected = 2;
    let before = format!("{:?}", st.nodes);
    st.toggle_bool();
    assert_eq!(st.to_value().get("on"), Some(&JsonValue::Bool(false)));
    st.toggle_bool();
    assert_eq!(format!("{:?}", st.nodes), before);
}

#[test]
fn law_confirmed_string_is_stored_and_in_value() {
    let mut st = state();
    st.selected = 4;
    assert_eq!(st.visible_nodes()[4].path, "inner.label");
    st.start_edit();
    st.edit_insert_char('y');
    assert!(st.confirm_edit(None));
    assert_eq!(st.visible_nodes()[st.selected].node.value, s("xy"));
    let inner = st.to_value();
    assert_eq!(inner.get("inner").unwrap().get("label"), Some(&s("xy")));
    // the other fields are untouched
    assert_eq!(inner.get("name"), Some(&s("abc")));
}

#[test]
fn law_cancel_keeps_tree() {
    let mut st = state();
    let before = format!("{:?}", st.nodes);
    st.start_edit();
    st.edit_insert_char('z');
    st.cancel_edit();
    assert_eq!(format!("{:?}", st.nodes), before);
}

#[test]
fn law_disabled_node_keeps_values() {
    let mut st = state();
    st.set_filter(Box::new(PathFilter { hidden: Vec::new(), read_only: vec!["on".to_string()] }));
    st.selected = 2;
    let before = format!("{:?}", st.nodes);
    for code in [KeyCode::Enter, KeyCode::Char(' '), KeyCode::Delete, KeyCode::Backspace] {
        let r = handle_key_event(&mut st, KeyPress { code, control: false, alt: false }, None);
        assert_ne!(r, EventResult::Consumed { value_changed: true });
    }
    assert_eq!(format!("{:?}", st.nodes), before);
}

#[test]
fn law_rows_are_shown() {
    let mut st = state();
    st.set_filter(Box::new(PathFilter { hidden: vec!["inner".to_string()], read_only: Vec::new() }));
    let paths: Vec<String> = st.visible_nodes().iter().map(|v| v.path.clone()).collect();
    assert_eq!(paths, vec!["name", "count", "on"]);
}

#[test]
fn law_plain_fields_read_back() {
    let schema = JsonValue::Object(vec![(
        "properties".to_string(),
        JsonValue::Object(vec![
            ("s".to_string(), typed("string")),
            ("i".to_string(), typed("integer")),
            ("f".to_string(), typed("number")),
            ("b".to_string(), typed("boolean")),
            ("missing".to_string(), typed("string")),
        ]),
    )]);
    let value = JsonValue::Object(vec![
        ("b".to_string(), JsonValue::Bool(false)),
        ("f".to_string(), JsonValue::Number("1.25".to_string())),
        ("i".to_string(), JsonValue::Number("-7".to_string())),
        ("s".to_string(), s("text")),
        ("extra".to_string(), s("ignored")),
    ]);
    let st = TreeState::new(&schema, &value);
    let out = st.to_value();
    for k in ["s", "i", "f", "b"] {
        assert_eq!(out.get(k), value.get(k));
    }
    assert_eq!(out.get("missing"), Some(&JsonValue::Null));
    assert_eq!(out.get("extra"), None);
}

#[test]
fn law_toggle_expand_twice_restores() {
    let mut st = state();
    st.selected = 3;
    let before = st.expanded.clone();
    st.toggle_expand();
    assert_ne!(st.expanded, before);
    st.toggle_expand();
    let mut a = st.expanded.clone();
    let mut b = before.clone();
    a.sort();
    b.sort();
    assert_eq!(a, b);
}

/// A config whose struct key holds a dot: `a.b` holds `c`, and a plain
/// struct `a` holds `x`; no two visible paths collide.
fn dotted_state() -> TreeState {
    let inner = |field: &str| {
        JsonValue::Object(vec![
            ("type".to_string(), s("object")),
            ("properties".to_string(), JsonValue::Object(vec![(field.to_string(), typed("string"))])),
        ])
    };
    let schema = JsonValue::Object(vec![(
        "properties".to_string(),
        JsonValue::Object(vec![("a.b".to_string(), inner("c")), ("a".to_string(), inner("x"))]),
    )]);
    TreeState::new(&schema, &JsonValue::Object(vec![]))
}

#[test]
fn law_toggle_expand_twice_with_dotted_keys() {
    let mut st = dotted_state();
    let before = st.expanded.clone();
    assert!(before.contains(&"a.b".to_string()));
    st.toggle_expand();
    assert!(!st.expanded.contains(&"a.b".to_string()));
    st.toggle_expand();
    let mut after = st.expanded.clone();
    let mut sorted_before = before.clone();
    after.sort();
    sorted_before.sort();
    assert_eq!(after, sorted_before);
    assert_eq!(st.selected, 0);
}

#[test]
fn law_expand_twice_is_expand_once_on_a_struct() {
    let mut st = state();
    let inner_row = st.visible_nodes().iter().position(|v| v.path == "inner").unwrap();
    st.selected = inner_row;
    st.collapse_selected();
    assert!(!st.expanded.contains(&"inner".to_string()));
    st.expand_selected();
    let once = st.expanded.clone();
    assert!(once.contains(&"inner".to_string()));
    st.expand_selected();
    assert_eq!(st.expanded, once);
}

#[test]
fn law_backspace_after_typing_restores_the_buffer() {
    let mut st = editing("héllo", 3);
    st.edit_insert_char('ß');
    assert_eq!(buffer(&st), ("héßllo".to_string(), 5));
    st.edit_backspace();
    assert_eq!(buffer(&st), ("héllo".to_string(), 3));
}

#[test]
fn law_unchanged_result_keeps_value() {
    let mut st = state();
    let before = st.to_value();
    for code in [KeyCode::Down, KeyCode::Up, KeyCode::Right, KeyCode::Left, KeyCode::Other] {
        let r = handle_key_event(&mut st, KeyPress { code, control: false, alt: false }, None);
        assert!(r == EventResult::Ignored || r == EventResult::Consumed { value_changed: false });
        assert_eq!(st.to_value(), before);
    }
}

#[test]
fn well_formedness_is_checked() {
    let mut st = state();
    assert!(st.is_well_formed());
    st.edit_mode = EditMode::Editing { buffer: "é".to_string(), cursor_pos: 1 };
    assert!(!st.is_well_formed());
    st.edit_mode = EditMode::Editing { buffer: "é".to_string(), cursor_pos: 2 };
    assert!(st.is_well_formed());
    st.edit_mode = EditMode::Normal;
    st.expanded.push(st.expanded[0].clone());
    assert!(!st.is_well_formed());
}

#[test]
fn object_keys_come_out_in_key_order() {
    let st = state();
    let v = st.to_value();
    match &v {
        JsonValue::Object(e) => {
            let keys: Vec<&str> = e.iter().map(|(k, _)| k.as_str()).collect();
            assert_eq!(keys, vec!["count", "inner", "name", "on"]);
        }
        _ => panic!("not an object"),
    }
}

#[test]
fn nodes_clone_to_equal_views() {
    let st = state();
    let copy = st.nodes.clone();
    assert_eq!(copy.len(), st.nodes.len());
    for (a, b) in copy.iter().zip(st.nodes.iter()) {
        assert_eq!(a.key, b.key);
        assert_eq!(a.kind, b.kind);
        assert_eq!(a.value, b.value);
        assert_eq!(a.children.len(), b.children.len());
    }
    assert_eq!(st.to_value().clone(), st.to_value());
}

#[test]
fn law_plain_config_round_trip() {
    let schema = JsonValue::Object(vec![(
        "properties".to_string(),
        JsonValue::Object(vec![
            ("name".to_string(), typed("string")),
            ("count".to_string(), typed("integer")),
            ("on".to_string(), typed("boolean")),
            ("ratio".to_string(), typed("number")),
        ]),
    )]);
    let value = JsonValue::Object(vec![
        ("count".to_string(), JsonValue::Number("7".to_string())),
        ("name".to_string(), s("n")),
        ("on".to_string(), JsonValue::Bool(false)),
        ("ratio".to_string(), JsonValue::Number("0.5".to_string())),
    ]);
    let st = TreeState::new(&schema, &value);
    assert_eq!(st.to_value(), value);
}
