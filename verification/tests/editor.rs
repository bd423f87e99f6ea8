use schema_tui::event::{handle_key_event, EventResult, KeyCode, KeyPress};
use schema_tui::json::JsonValue;
use schema_tui::node::{build_tree, default_value_for_schema, ConfigNode, NodeKind};
use schema_tui::state::{EditMode, PathFilter, TreeState};

const SCHEMA: &str = r##"{
  "title": "AppConfig",
  "type": "object",
  "properties": {
    "app_name": {"description": "The application name", "type": "string"},
    "server": {"description": "Server configuration", "$ref": "#/$defs/ServerConfig"},
    "logging": {"$ref": "#/$defs/LogConfig"},
    "mode": {"$ref": "#/$defs/RunMode"},
    "max_retries": {"type": "integer", "format": "uint32", "minimum": 0},
    "timeout": {"type": "number", "format": "double"},
    "experimental": {"type": "boolean"},
    "description": {"type": ["string", "null"]},
    "nickname": {"type": ["string", "null"]},
    "backup_server": {"anyOf": [{"$ref": "#/$defs/ServerConfig"}, {"type": "null"}]},
    "features": {"type": "array", "items": {"$ref": "#/$defs/Feature"}}
  },
  "required": ["app_name", "server", "logging", "mode", "max_retries", "timeout", "experimental", "features"],
  "$defs": {
    "ServerConfig": {
      "type": "object",
      "properties": {
        "hostname": {"type": "string"},
        "port": {"type": "integer"},
        "tls": {"type": "boolean"}
      },
      "required": ["hostname", "port", "tls"]
    },
    "LogConfig": {
      "type": "object",
      "properties": {
        "level": {"$ref": "#/$defs/LogLevel"},
        "file": {"type": ["string", "null"]},
        "use_color": {"type": "boolean"}
      },
      "required": ["level", "use_color"]
    },
    "RunMode": {"type": "string", "enum": ["Debug", "Release", "Test"]},
    "LogLevel": {"type": "string", "enum": ["Error", "Warn", "Info", "Debug", "Trace"]},
    "Feature": {"type": "string", "enum": ["Logging", "Metrics", "Tracing", "Auth", "Caching"]}
  }
}"##;

const VALUE: &str = r##"{
  "app_name": "my-app",
  "server": {"hostname": "localhost", "port": 8080, "tls": false},
  "logging": {"level": "Info", "file": null, "use_color": true},
  "mode": "Release",
  "max_retries": 3,
  "timeout": 30.0,
  "experimental": false,
  "description": "A sample application",
  "nickname": null,
  "backup_server": {"hostname": "backup.local", "port": 9090, "tls": true},
  "features": ["Logging", "Auth"]
}"##;

fn convert(v: &serde_json::Value) -> JsonValue {
    match v {
        serde_json::Value::Null => JsonValue::Null,
        serde_json::Value::Bool(b) => JsonValue::Bool(*b),
        serde_json::Value::Number(n) => JsonValue::Number(n.to_string()),
        serde_json::Value::String(s) => JsonValue::String(s.clone()),
        serde_json::Value::Array(a) => JsonValue::Array(a.iter().map(convert).collect()),
        serde_json::Value::Object(o) => {
            JsonValue::Object(o.iter().map(|(k, v)| (k.clone(), convert(v))).collect())
        }
    }
}

fn json(text: &str) -> JsonValue {
    convert(&serde_json::from_str::<serde_json::Value>(text).unwrap())
}

fn demo_state() -> TreeState {
    TreeState::new(&json(SCHEMA), &json(VALUE))
}

fn key(code: KeyCode) -> KeyPress {
    KeyPress { code, control: false, alt: false }
}

fn press(state: &mut TreeState, code: KeyCode) -> EventResult {
    handle_key_event(state, key(code), None)
}

fn select_path(state: &mut TreeState, path: &str) {
    let idx = state
        .visible_nodes()
        .iter()
        .position(|vn| vn.path == path)
        .unwrap_or_else(|| panic!("no visible row {}", path));
    state.selected = idx;
}

fn node<'a>(nodes: &'a [ConfigNode], path: &str) -> &'a ConfigNode {
    let mut cur = nodes;
    let parts: Vec<&str> = path.split('.').collect();
    let mut found: Option<&ConfigNode> = None;
    for p in parts {
        let n = cur.iter().find(|n| n.key == p).unwrap();
        found = Some(n);
        cur = &n.children;
    }
    found.unwrap()
}

fn field<'a>(v: &'a JsonValue, k: &str) -> &'a JsonValue {
    v.get(k).unwrap()
}

fn text(s: &str) -> JsonValue {
    JsonValue::String(s.to_string())
}

fn buffer_of(state: &TreeState) -> (String, usize) {
    match &state.edit_mode {
        EditMode::Editing { buffer, cursor_pos } => (buffer.clone(), *cursor_pos),
        EditMode::Normal => panic!("not editing"),
    }
}

#[test]
fn builds_fields_in_required_order() {
    let nodes = build_tree(&json(SCHEMA), &json(VALUE));
    let keys: Vec<&str> = nodes.iter().map(|n| n.key.as_str()).collect();
    assert_eq!(
        keys,
        vec![
            "app_name", "server", "logging", "mode", "max_retries", "timeout", "experimental", "features",
            "backup_server", "description", "nickname"
        ]
    );
    assert_eq!(nodes[0].kind, NodeKind::String);
    assert_eq!(nodes[0].description.as_deref(), Some("The application name"));
    assert_eq!(nodes[0].value, text("my-app"));
    assert_eq!(nodes[4].kind, NodeKind::Integer);
    assert_eq!(nodes[4].value, JsonValue::Number("3".to_string()));
    assert_eq!(nodes[5].kind, NodeKind::Float);
    assert_eq!(nodes[6].kind, NodeKind::Bool);
}

#[test]
fn builds_structs_enums_options_and_checkboxes() {
    let nodes = build_tree(&json(SCHEMA), &json(VALUE));
    let server = node(&nodes, "server");
    assert_eq!(server.kind, NodeKind::Struct { struct_name: "object".to_string() });
    assert_eq!(server.children.len(), 3);
    assert_eq!(server.children[1].key, "port");
    assert_eq!(server.children[1].depth, 1);

    let mode = node(&nodes, "mode");
    assert_eq!(
        mode.kind,
        NodeKind::RadioGroup { variants: vec!["Debug".to_string(), "Release".to_string(), "Test".to_string()] }
    );
    let selected: Vec<bool> = mode
        .children
        .iter()
        .map(|c| matches!(c.kind, NodeKind::RadioItem { selected: true, .. }))
        .collect();
    assert_eq!(selected, vec![false, true, false]);

    let description = node(&nodes, "description");
    assert_eq!(
        description.kind,
        NodeKind::Option { is_some: true, inner_kind: Some(Box::new(NodeKind::String)) }
    );
    assert!(description.children.is_empty());
    let nickname = node(&nodes, "nickname");
    assert!(matches!(nickname.kind, NodeKind::Option { is_some: false, .. }));

    let backup = node(&nodes, "backup_server");
    assert_eq!(backup.kind, NodeKind::Option { is_some: true, inner_kind: None });
    assert_eq!(backup.children.len(), 3);
    assert_eq!(backup.children[0].value, text("backup.local"));

    let features = node(&nodes, "features");
    let checked: Vec<(String, bool)> = features
        .children
        .iter()
        .map(|c| (c.key.clone(), matches!(c.kind, NodeKind::CheckboxItem { checked: true })))
        .collect();
    assert_eq!(
        checked,
        vec![
            ("Logging".to_string(), true),
            ("Metrics".to_string(), false),
            ("Tracing".to_string(), false),
            ("Auth".to_string(), true),
            ("Caching".to_string(), false)
        ]
    );
}

#[test]
fn builds_nothing_without_properties() {
    assert!(build_tree(&json(r#"{"type": "string"}"#), &json("\"x\"")).is_empty());
}

#[test]
fn default_values_follow_the_schema() {
    let defs = Vec::new();
    assert_eq!(default_value_for_schema(&json(r#"{"type": "string"}"#), &defs), text(""));
    assert_eq!(
        default_value_for_schema(&json(r#"{"type": "integer"}"#), &defs),
        JsonValue::Number("0".to_string())
    );
    assert_eq!(
        default_value_for_schema(&json(r#"{"type": "number"}"#), &defs),
        JsonValue::Number("0.0".to_string())
    );
    assert_eq!(default_value_for_schema(&json(r#"{"type": "boolean"}"#), &defs), JsonValue::Bool(false));
    assert_eq!(default_value_for_schema(&json(r#"{"type": ["string", "null"]}"#), &defs), JsonValue::Null);
    assert_eq!(default_value_for_schema(&json(r#"{"enum": ["A", "B"]}"#), &defs), text("A"));
    assert_eq!(default_value_for_schema(&json(r#"{"type": "string", "default": "x"}"#), &defs), text("x"));
    let server = default_value_for_schema(&json(r##"{"$ref": "#/$defs/ServerConfig"}"##), &defs_of(SCHEMA));
    assert_eq!(field(&server, "hostname"), &text(""));
    assert_eq!(field(&server, "port"), &JsonValue::Number("0".to_string()));
    assert_eq!(field(&server, "tls"), &JsonValue::Bool(false));
}

fn defs_of(schema: &str) -> Vec<(String, JsonValue)> {
    let v = serde_json::from_str::<serde_json::Value>(schema).unwrap();
    v["$defs"].as_object().unwrap().iter().map(|(k, d)| (k.clone(), convert(d))).collect()
}

fn to_text(v: &JsonValue) -> String {
    let mut s = String::new();
    schema_tui::layout::write_json(&mut s, v);
    s
}

#[test]
fn new_state_expands_containers_and_selects_the_first_row() {
    let state = demo_state();
    assert_eq!(state.selected, 0);
    assert_eq!(state.edit_mode, EditMode::Normal);
    assert!(state.expanded.contains(&"server".to_string()));
    assert!(state.expanded.contains(&"backup_server".to_string()));
    assert!(state.expanded.contains(&"features".to_string()));
    assert!(!state.expanded.contains(&"nickname".to_string()));
    let paths: Vec<String> = state.visible_nodes().iter().map(|v| v.path.clone()).collect();
    assert_eq!(paths[0], "app_name");
    assert_eq!(paths[1], "server");
    assert_eq!(paths[2], "server.hostname");
    for (i, vn) in state.visible_nodes().iter().enumerate() {
        assert_eq!(vn.flat_index, i);
    }
}

#[test]
fn to_value_gives_back_the_config() {
    let state = demo_state();
    let expected = [
        r#"{"app_name":"my-app","#,
        r#""backup_server":{"hostname":"backup.local","port":9090,"tls":true},"#,
        r#""description":"A sample application","experimental":false,"features":["Logging","Auth"],"#,
        r#""logging":{"file":null,"level":"Info","use_color":true},"max_retries":3,"mode":"Release","#,
        r#""nickname":null,"server":{"hostname":"localhost","port":8080,"tls":false},"timeout":30.0}"#,
    ]
    .concat();
    let parsed: serde_json::Value = serde_json::from_str(VALUE).unwrap();
    assert_eq!(state.to_value(), convert(&parsed));
    assert_eq!(to_text(&state.to_value()), expected);
}

#[test]
fn navigation_stays_within_the_rows() {
    let mut state = demo_state();
    state.select_prev();
    assert_eq!(state.selected, 0);
    let rows = state.visible_nodes().len();
    for _ in 0..rows + 5 {
        state.select_next();
    }
    assert_eq!(state.selected, rows - 1);
    state.select_prev();
    assert_eq!(state.selected, rows - 2);
}

#[test]
fn collapse_and_expand_hide_and_show_children() {
    let mut state = demo_state();
    let before = state.visible_nodes().len();
    select_path(&mut state, "server");
    state.collapse_selected();
    assert_eq!(state.visible_nodes().len(), before - 3);
    state.collapse_selected();
    assert_eq!(state.visible_nodes().len(), before - 3);
    state.expand_selected();
    assert_eq!(state.visible_nodes().len(), before);
    state.toggle_expand();
    assert_eq!(state.visible_nodes().len(), before - 3);
    state.toggle_expand();
    assert_eq!(state.visible_nodes().len(), before);
    // a leaf cannot be expanded
    select_path(&mut state, "app_name");
    state.expand_selected();
    assert!(!state.expanded.contains(&"app_name".to_string()));
}

#[test]
fn editing_a_string_stores_the_buffer() {
    let mut state = demo_state();
    select_path(&mut state, "server.hostname");
    state.start_edit();
    assert_eq!(buffer_of(&state), ("localhost".to_string(), 9));
    state.edit_backspace();
    state.edit_insert_char('X');
    assert_eq!(buffer_of(&state), ("localhosX".to_string(), 9));
    assert!(state.confirm_edit(None));
    assert_eq!(state.edit_mode, EditMode::Normal);
    assert_eq!(node(&state.nodes, "server.hostname").value, text("localhosX"));
    assert_eq!(field(field(&state.to_value(), "server"), "hostname"), &text("localhosX"));
}

#[test]
fn cancelling_an_edit_keeps_the_value() {
    let mut state = demo_state();
    select_path(&mut state, "app_name");
    state.start_edit();
    state.edit_insert_char('!');
    state.cancel_edit();
    assert_eq!(state.edit_mode, EditMode::Normal);
    assert_eq!(node(&state.nodes, "app_name").value, text("my-app"));
}

#[test]
fn integer_edits_parse_or_are_rejected() {
    let mut state = demo_state();
    select_path(&mut state, "max_retries");
    state.start_edit();
    assert_eq!(buffer_of(&state), ("3".to_string(), 1));
    state.edit_insert_char('0');
    assert!(state.confirm_edit(None));
    assert_eq!(node(&state.nodes, "max_retries").value, JsonValue::Number("30".to_string()));

    state.start_edit();
    state.edit_cursor_home();
    state.edit_insert_char('+');
    assert!(state.confirm_edit(None));
    assert_eq!(node(&state.nodes, "max_retries").value, JsonValue::Number("30".to_string()));

    state.start_edit();
    state.edit_insert_char('x');
    assert!(!state.confirm_edit(None));
    assert_eq!(state.edit_mode, EditMode::Normal);
    assert_eq!(node(&state.nodes, "max_retries").value, JsonValue::Number("30".to_string()));
}

#[test]
fn float_edits_store_the_reading() {
    let mut state = demo_state();
    select_path(&mut state, "timeout");
    state.start_edit();
    assert_eq!(buffer_of(&state), ("30.0".to_string(), 4));
    assert!(state.confirm_edit(Some("2.5".to_string())));
    assert_eq!(node(&state.nodes, "timeout").value, JsonValue::Number("2.5".to_string()));
    state.start_edit();
    assert!(!state.confirm_edit(None));
    assert_eq!(node(&state.nodes, "timeout").value, JsonValue::Number("2.5".to_string()));
}

#[test]
fn confirm_outside_edit_mode_does_nothing() {
    let mut state = demo_state();
    assert!(!state.confirm_edit(Some("1".to_string())));
    assert_eq!(node(&state.nodes, "app_name").value, text("my-app"));
}

#[test]
fn start_edit_ignores_non_text_nodes() {
    let mut state = demo_state();
    select_path(&mut state, "experimental");
    state.start_edit();
    assert_eq!(state.edit_mode, EditMode::Normal);
    select_path(&mut state, "server");
    state.start_edit();
    assert_eq!(state.edit_mode, EditMode::Normal);
}

#[test]
fn cursor_moves_by_characters_over_multibyte_text() {
    let mut state = demo_state();
    select_path(&mut state, "app_name");
    state.edit_mode = EditMode::Editing { buffer: "aé€b".to_string(), cursor_pos: 0 };
    state.edit_cursor_right();
    assert_eq!(buffer_of(&state).1, 1);
    state.edit_cursor_right();
    assert_eq!(buffer_of(&state).1, 3);
    state.edit_cursor_right();
    assert_eq!(buffer_of(&state).1, 6);
    state.edit_cursor_right();
    assert_eq!(buffer_of(&state).1, 7);
    state.edit_cursor_right();
    assert_eq!(buffer_of(&state).1, 7);
    state.edit_cursor_left();
    assert_eq!(buffer_of(&state).1, 6);
    state.edit_backspace();
    assert_eq!(buffer_of(&state), ("aéb".to_string(), 3));
    state.edit_delete();
    assert_eq!(buffer_of(&state), ("aé".to_string(), 3));
    state.edit_delete();
    assert_eq!(buffer_of(&state), ("aé".to_string(), 3));
    state.edit_insert_char('ü');
    assert_eq!(buffer_of(&state), ("aéü".to_string(), 5));
    state.edit_cursor_home();
    assert_eq!(buffer_of(&state).1, 0);
    state.edit_backspace();
    assert_eq!(buffer_of(&state), ("aéü".to_string(), 0));
    state.edit_cursor_end();
    assert_eq!(buffer_of(&state).1, 5);
}

#[test]
fn edit_keys_do_nothing_in_normal_mode() {
    let mut state = demo_state();
    state.edit_insert_char('a');
    state.edit_backspace();
    state.edit_delete();
    state.edit_cursor_left();
    state.edit_cursor_right();
    state.edit_cursor_home();
    state.edit_cursor_end();
    assert_eq!(state.edit_mode, EditMode::Normal);
}

#[test]
fn toggle_bool_flips_the_value() {
    let mut state = demo_state();
    select_path(&mut state, "server.tls");
    state.toggle_bool();
    assert_eq!(node(&state.nodes, "server.tls").value, JsonValue::Bool(true));
    state.toggle_bool();
    assert_eq!(node(&state.nodes, "server.tls").value, JsonValue::Bool(false));
    select_path(&mut state, "app_name");
    state.toggle_bool();
    assert_eq!(node(&state.nodes, "app_name").value, text("my-app"));
}

#[test]
fn select_radio_chooses_one_variant() {
    let mut state = demo_state();
    select_path(&mut state, "mode.Test");
    assert!(state.select_radio());
    let mode = node(&state.nodes, "mode");
    let selected: Vec<bool> = mode
        .children
        .iter()
        .map(|c| matches!(c.kind, NodeKind::RadioItem { selected: true, .. }))
        .collect();
    assert_eq!(selected, vec![false, false, true]);
    assert_eq!(mode.value, text("Test"));
    assert_eq!(field(&state.to_value(), "mode"), &text("Test"));
    assert!(state.expanded.contains(&"mode.Test".to_string()));
    // choosing it again changes nothing
    assert!(!state.select_radio());
    assert_eq!(node(&state.nodes, "mode").value, text("Test"));
}

#[test]
fn select_radio_ignores_other_nodes() {
    let mut state = demo_state();
    select_path(&mut state, "app_name");
    assert!(!state.select_radio());
}

#[test]
fn struct_variants_get_default_fields() {
    let schema = json(
        r##"{"type": "object", "properties": {"shape": {"$ref": "#/$defs/Shape"}}, "required": ["shape"],
        "$defs": {"Shape": {"oneOf": [
            {"type": "string", "const": "Dot"},
            {"type": "object", "properties": {"Circle": {"type": "object",
                "properties": {"radius": {"type": "integer"}}, "required": ["radius"]}},
             "required": ["Circle"]}
        ]}}}"##,
    );
    let mut state = TreeState::new(&schema, &json(r#"{"shape": "Dot"}"#));
    select_path(&mut state, "shape.Circle");
    assert!(state.select_radio());
    let circle = node(&state.nodes, "shape.Circle");
    assert_eq!(circle.children.len(), 1);
    assert_eq!(circle.children[0].key, "radius");
    assert_eq!(circle.children[0].depth, 2);
    assert_eq!(to_text(&node(&state.nodes, "shape").value), r#"{"Circle":{"radius":0}}"#);
    assert_eq!(to_text(&state.to_value()), r#"{"shape":{"Circle":{"radius":0}}}"#);
    select_path(&mut state, "shape.Dot");
    assert!(state.select_radio());
    assert!(node(&state.nodes, "shape.Circle").children.is_empty());
    assert_eq!(to_text(&state.to_value()), r#"{"shape":"Dot"}"#);
}

#[test]
fn toggle_option_adds_and_removes_values() {
    let mut state = demo_state();
    select_path(&mut state, "nickname");
    state.toggle_option();
    assert_eq!(
        node(&state.nodes, "nickname").kind,
        NodeKind::Option { is_some: true, inner_kind: Some(Box::new(NodeKind::String)) }
    );
    assert_eq!(node(&state.nodes, "nickname").value, text(""));
    state.toggle_option();
    assert_eq!(node(&state.nodes, "nickname").value, JsonValue::Null);

    select_path(&mut state, "backup_server");
    state.toggle_option();
    let backup = node(&state.nodes, "backup_server");
    assert!(matches!(backup.kind, NodeKind::Option { is_some: false, .. }));
    assert!(backup.children.is_empty());
    assert!(!state.expanded.contains(&"backup_server".to_string()));
    assert_eq!(field(&state.to_value(), "backup_server"), &JsonValue::Null);
    state.toggle_option();
    let backup = node(&state.nodes, "backup_server");
    assert!(matches!(backup.kind, NodeKind::Option { is_some: true, .. }));
    assert_eq!(backup.children.len(), 3);
    assert_eq!(backup.children[0].depth, 1);
    assert!(state.expanded.contains(&"backup_server".to_string()));
    assert_eq!(
        to_text(field(&state.to_value(), "backup_server")),
        r#"{"hostname":"","port":0,"tls":false}"#
    );
}

#[test]
fn toggle_checkbox_updates_the_list() {
    let mut state = demo_state();
    select_path(&mut state, "features.Metrics");
    state.toggle_checkbox();
    assert_eq!(to_text(&node(&state.nodes, "features").value), r#"["Logging","Metrics","Auth"]"#);
    select_path(&mut state, "features.Logging");
    state.toggle_checkbox();
    assert_eq!(to_text(field(&state.to_value(), "features")), r#"["Metrics","Auth"]"#);
    state.toggle_checkbox();
    assert_eq!(to_text(field(&state.to_value(), "features")), r#"["Logging","Metrics","Auth"]"#);
}

#[test]
fn toggle_checkbox_twice_keeps_the_value() {
    let mut state = demo_state();
    let before = state.to_value();
    select_path(&mut state, "features.Tracing");
    let flags = |st: &TreeState| -> Vec<NodeKind> {
        node(&st.nodes, "features").children.iter().map(|c| c.kind.clone()).collect()
    };
    let flags_before = flags(&state);
    state.toggle_checkbox();
    assert_ne!(state.to_value(), before);
    state.toggle_checkbox();
    assert_eq!(state.to_value(), before);
    assert_eq!(flags(&state), flags_before);
}

#[test]
fn toggle_option_twice_keeps_the_value() {
    let mut state = demo_state();
    select_path(&mut state, "backup_server");
    state.toggle_option();
    for path in ["nickname", "backup_server"] {
        select_path(&mut state, path);
        let before = state.to_value();
        let mut expanded: Vec<String> = state.expanded.iter().filter(|p| p.as_str() != path).cloned().collect();
        state.toggle_option();
        assert_ne!(state.to_value(), before);
        state.toggle_option();
        assert_eq!(state.to_value(), before);
        let mut after = state.expanded.clone();
        after.sort();
        expanded.sort();
        assert_eq!(after, expanded);
        assert!(matches!(node(&state.nodes, path).kind, NodeKind::Option { is_some: false, .. }));
        assert!(node(&state.nodes, path).children.is_empty());
    }
}

fn demo_filter() -> PathFilter {
    PathFilter {
        hidden: vec!["nickname".to_string()],
        read_only: ["app_name", "experimental", "mode.Debug", "mode.Release", "mode.Test"]
            .iter()
            .map(|s| s.to_string())
            .collect(),
    }
}

#[test]
fn filters_hide_and_protect_nodes() {
    let mut state = demo_state();
    let rows = state.visible_nodes().len();
    state.set_filter(Box::new(demo_filter()));
    assert_eq!(state.visible_nodes().len(), rows - 1);
    assert!(state.visible_nodes().iter().all(|v| v.path != "nickname"));
    assert!(!state.is_enabled("app_name"));
    assert!(state.is_enabled("server.port"));

    select_path(&mut state, "experimental");
    assert_eq!(press(&mut state, KeyCode::Enter), EventResult::Ignored);
    assert_eq!(press(&mut state, KeyCode::Char(' ')), EventResult::Ignored);
    assert_eq!(node(&state.nodes, "experimental").value, JsonValue::Bool(false));

    // containers still expand and collapse
    select_path(&mut state, "mode");
    assert_eq!(press(&mut state, KeyCode::Enter), EventResult::Consumed { value_changed: false });
    assert!(!state.expanded.contains(&"mode".to_string()));

    state.clear_filter();
    assert_eq!(state.visible_nodes().len(), rows - 3);
    assert!(state.is_enabled("app_name"));
}

#[test]
fn keys_navigate_and_toggle() {
    let mut state = demo_state();
    assert_eq!(press(&mut state, KeyCode::Char('j')), EventResult::Consumed { value_changed: false });
    assert_eq!(state.selected, 1);
    assert_eq!(press(&mut state, KeyCode::Down), EventResult::Consumed { value_changed: false });
    assert_eq!(press(&mut state, KeyCode::Up), EventResult::Consumed { value_changed: false });
    assert_eq!(press(&mut state, KeyCode::Char('k')), EventResult::Consumed { value_changed: false });
    assert_eq!(state.selected, 0);
    select_path(&mut state, "server");
    assert_eq!(press(&mut state, KeyCode::Char('h')), EventResult::Consumed { value_changed: false });
    assert!(!state.expanded.contains(&"server".to_string()));
    assert_eq!(press(&mut state, KeyCode::Right), EventResult::Consumed { value_changed: false });
    assert!(state.expanded.contains(&"server".to_string()));

    select_path(&mut state, "experimental");
    assert_eq!(press(&mut state, KeyCode::Char(' ')), EventResult::Consumed { value_changed: true });
    assert_eq!(node(&state.nodes, "experimental").value, JsonValue::Bool(true));

    let ctrl = KeyPress { code: KeyCode::Char('j'), control: true, alt: false };
    let before = state.selected;
    assert_eq!(handle_key_event(&mut state, ctrl, None), EventResult::Ignored);
    assert_eq!(state.selected, before);
    assert_eq!(press(&mut state, KeyCode::Other), EventResult::Ignored);
}

#[test]
fn keys_edit_values() {
    let mut state = demo_state();
    select_path(&mut state, "app_name");
    assert_eq!(press(&mut state, KeyCode::Enter), EventResult::Consumed { value_changed: false });
    assert_eq!(buffer_of(&state), ("my-app".to_string(), 6));
    assert_eq!(press(&mut state, KeyCode::Backspace), EventResult::Consumed { value_changed: false });
    assert_eq!(press(&mut state, KeyCode::Char('j')), EventResult::Consumed { value_changed: false });
    assert_eq!(press(&mut state, KeyCode::Home), EventResult::Consumed { value_changed: false });
    assert_eq!(press(&mut state, KeyCode::Delete), EventResult::Consumed { value_changed: false });
    assert_eq!(press(&mut state, KeyCode::End), EventResult::Consumed { value_changed: false });
    assert_eq!(press(&mut state, KeyCode::Left), EventResult::Consumed { value_changed: false });
    assert_eq!(press(&mut state, KeyCode::Right), EventResult::Consumed { value_changed: false });
    assert_eq!(buffer_of(&state), ("y-apj".to_string(), 5));
    assert_eq!(press(&mut state, KeyCode::Other), EventResult::Ignored);
    assert_eq!(press(&mut state, KeyCode::Enter), EventResult::Consumed { value_changed: true });
    assert_eq!(node(&state.nodes, "app_name").value, text("y-apj"));

    assert_eq!(press(&mut state, KeyCode::Enter), EventResult::Consumed { value_changed: false });
    assert_eq!(press(&mut state, KeyCode::Esc), EventResult::Consumed { value_changed: false });
    assert_eq!(state.edit_mode, EditMode::Normal);
}

#[test]
fn keys_open_and_clear_optionals() {
    let mut state = demo_state();
    select_path(&mut state, "nickname");
    assert_eq!(press(&mut state, KeyCode::Enter), EventResult::Consumed { value_changed: true });
    assert_eq!(buffer_of(&state), (String::new(), 0));
    assert_eq!(press(&mut state, KeyCode::Char('n')), EventResult::Consumed { value_changed: false });
    assert_eq!(press(&mut state, KeyCode::Enter), EventResult::Consumed { value_changed: true });
    assert_eq!(node(&state.nodes, "nickname").value, text("n"));
    assert_eq!(press(&mut state, KeyCode::Delete), EventResult::Consumed { value_changed: true });
    assert_eq!(node(&state.nodes, "nickname").value, JsonValue::Null);
    assert_eq!(press(&mut state, KeyCode::Backspace), EventResult::Ignored);
}

#[test]
fn keys_choose_radio_items_and_checkboxes() {
    let mut state = demo_state();
    select_path(&mut state, "mode.Debug");
    assert_eq!(press(&mut state, KeyCode::Enter), EventResult::Consumed { value_changed: true });
    assert_eq!(field(&state.to_value(), "mode"), &text("Debug"));
    assert_eq!(press(&mut state, KeyCode::Char(' ')), EventResult::Consumed { value_changed: false });
    select_path(&mut state, "features.Caching");
    assert_eq!(press(&mut state, KeyCode::Enter), EventResult::Consumed { value_changed: true });
    assert_eq!(to_text(field(&state.to_value(), "features")), r#"["Logging","Auth","Caching"]"#);
}
