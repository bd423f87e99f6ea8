use schema_tui::json::JsonValue;
use schema_tui::node::{build_node_pub, build_tree, build_tree_from_properties, ConfigNode, NodeKind};
use schema_tui::state::{EditMode, TreeState};

fn convert(v: &serde_json::Value) -> JsonValue {
    match v {
        serde_json::Value::Null => JsonValue::Null,
        serde_json::Value::Bool(b) => JsonValue::Bool(*b),
        serde_json::Value::Number(n) => JsonValue::Number(n.to_string()),
        serde_json::Value::String(s) => JsonValue::String(s.clone()),
        serde_json::Value::Array(a) => JsonValue::Array(a.iter().map(convert).collect()),
        serde_json::Value::Object(o) => {
            JsonValue::Object(o.iter().map(|(k, v)| (k.clone(), convert(v))).collect())
        }
    }
}

fn json(text: &str) -> JsonValue {
    convert(&serde_json::from_str::<serde_json::Value>(text).unwrap())
}

fn one_field(field_schema: &str, value: &str) -> Vec<ConfigNode> {
    let schema = json(&format!(r#"{{"properties": {{"x": {}}}}}"#, field_schema));
    let value = json(&format!(r#"{{"x": {}}}"#, value));
    build_tree(&schema, &value)
}

#[test]
fn type_array_optionals_are_scalar() {
    let nodes = one_field(r#"{"type": ["integer", "null"]}"#, "5");
    assert_eq!(nodes[0].kind, NodeKind::Option { is_some: true, inner_kind: Some(Box::new(NodeKind::Integer)) });
    assert!(nodes[0].children.is_empty());
    assert_eq!(nodes[0].inner_schema, Some(json(r#"{"type": "integer"}"#)));
    let nodes = one_field(r#"{"type": ["null", "boolean"]}"#, "null");
    assert_eq!(nodes[0].kind, NodeKind::Option { is_some: false, inner_kind: Some(Box::new(NodeKind::Bool)) });
    let nodes = one_field(r#"{"type": ["string"]}"#, "\"s\"");
    assert_eq!(nodes[0].kind, NodeKind::String);
}

#[test]
fn any_of_optionals() {
    let nodes = one_field(r#"{"anyOf": [{"type": "integer"}, {"type": "null"}]}"#, "3");
    assert_eq!(nodes[0].kind, NodeKind::Option { is_some: true, inner_kind: Some(Box::new(NodeKind::Integer)) });
    assert!(nodes[0].children.is_empty());
    let nodes = one_field(
        r#"{"anyOf": [{"type": "null"}, {"type": "object", "properties": {"a": {"type": "boolean"}}}]}"#,
        r#"{"a": true}"#,
    );
    assert_eq!(nodes[0].kind, NodeKind::Option { is_some: true, inner_kind: None });
    assert_eq!(nodes[0].children.len(), 1);
    assert_eq!(nodes[0].children[0].key, "a");
    assert_eq!(nodes[0].children[0].depth, 1);
    // without a null alternative it is no optional
    let nodes = one_field(r#"{"anyOf": [{"type": "integer"}, {"type": "string"}]}"#, "3");
    assert_eq!(nodes[0].kind, NodeKind::String);
}

#[test]
fn optional_arrays_of_values_get_a_value_child() {
    let nodes = one_field(r#"{"anyOf": [{"type": "array"}, {"type": "null"}]}"#, "[1]");
    assert_eq!(nodes[0].kind, NodeKind::Option { is_some: true, inner_kind: None });
    assert_eq!(nodes[0].children.len(), 1);
    assert_eq!(nodes[0].children[0].key, "value");
    assert_eq!(nodes[0].children[0].kind, NodeKind::String);
}

#[test]
fn enums_from_one_of_constants() {
    let nodes = one_field(
        r#"{"oneOf": [{"type": "string", "const": "A"}, {"type": "string", "const": "B"}]}"#,
        "\"B\"",
    );
    assert_eq!(nodes[0].kind, NodeKind::RadioGroup { variants: vec!["A".to_string(), "B".to_string()] });
    assert_eq!(nodes[0].children[1].kind, NodeKind::RadioItem { selected: true, is_struct: false });
    assert_eq!(nodes[0].children[1].depth, 1);
    assert_eq!(nodes[0].children[1].value, JsonValue::Bool(true));
}

#[test]
fn struct_variants_hold_their_fields() {
    let nodes = one_field(
        r#"{"oneOf": [{"const": "Dot"},
            {"type": "object", "properties": {"Circle": {"type": "object",
              "properties": {"radius": {"type": "integer"}}}}}]}"#,
        r#"{"Circle": {"radius": 3}}"#,
    );
    let circle = &nodes[0].children[1];
    assert_eq!(circle.key, "Circle");
    assert_eq!(circle.kind, NodeKind::RadioItem { selected: true, is_struct: true });
    assert_eq!(circle.children.len(), 1);
    assert_eq!(circle.children[0].value, JsonValue::Number("3".to_string()));
    assert_eq!(circle.children[0].depth, 2);
    assert_eq!(nodes[0].children[0].kind, NodeKind::RadioItem { selected: false, is_struct: false });
}

#[test]
fn checkboxes_from_one_of_constants() {
    let nodes = one_field(
        r#"{"type": "array", "items": {"oneOf": [{"const": "r"}, {"const": "w"}, {"const": "x"}]}}"#,
        r#"["x", "r", 5]"#,
    );
    assert_eq!(
        nodes[0].kind,
        NodeKind::Checkboxes { variants: vec!["r".to_string(), "w".to_string(), "x".to_string()] }
    );
    let checked: Vec<bool> = nodes[0]
        .children
        .iter()
        .map(|c| matches!(c.kind, NodeKind::CheckboxItem { checked: true }))
        .collect();
    assert_eq!(checked, vec![true, false, true]);
}

#[test]
fn structs_take_their_title_and_unknown_types_are_strings() {
    let nodes = one_field(r#"{"type": "object", "title": "Point", "description": "d", "properties": {}}"#, "{}");
    assert_eq!(nodes[0].kind, NodeKind::Struct { struct_name: "Point".to_string() });
    assert_eq!(nodes[0].description.as_deref(), Some("d"));
    let nodes = one_field(r#"{"format": "date"}"#, "\"2024\"");
    assert_eq!(nodes[0].kind, NodeKind::String);
    assert_eq!(nodes[0].value, JsonValue::String("2024".to_string()));
}

#[test]
fn missing_values_are_null() {
    let schema = json(r#"{"properties": {"a": {"type": "string"}}}"#);
    let nodes = build_tree(&schema, &json("[]"));
    assert_eq!(nodes[0].value, JsonValue::Null);
}

#[test]
fn references_resolve_through_definitions() {
    let defs = vec![("T".to_string(), json(r#"{"type": "boolean", "description": "flag"}"#))];
    let n = build_node_pub("k", &json(r##"{"$ref": "#/$defs/T"}"##), &JsonValue::Bool(true), &defs, 4);
    assert_eq!(n.kind, NodeKind::Bool);
    assert_eq!(n.depth, 4);
    assert_eq!(n.description.as_deref(), Some("flag"));
    let props = vec![("b".to_string(), json(r#"{"type": "integer"}"#)), ("a".to_string(), json(r#"{"type": "string"}"#))];
    let parent = json(r#"{"required": ["a"]}"#);
    let nodes = build_tree_from_properties(&props, &parent, &defs, None, 2);
    let keys: Vec<&str> = nodes.iter().map(|n| n.key.as_str()).collect();
    assert_eq!(keys, vec!["a", "b"]);
    assert_eq!(nodes[0].depth, 2);
}

#[test]
fn absent_struct_optionals_open_with_defaults() {
    let schema = json(
        r##"{"properties": {"o": {"anyOf": [{"$ref": "#/$defs/S"}, {"type": "null"}]}},
        "$defs": {"S": {"type": "object", "properties": {"n": {"type": "integer", "default": 9}}}}}"##,
    );
    let mut st = TreeState::new(&schema, &json(r#"{"o": null}"#));
    assert!(st.visible_nodes()[0].node.children.is_empty());
    st.toggle_option();
    let o = &st.nodes[0];
    assert!(matches!(o.kind, NodeKind::Option { is_some: true, .. }));
    assert_eq!(o.children[0].key, "n");
    assert_eq!(o.children[0].value, JsonValue::Number("9".to_string()));
    assert_eq!(o.children[0].depth, 1);
    assert_eq!(st.visible_nodes().len(), 2);
    assert_eq!(st.edit_mode, EditMode::Normal);
}

fn same_node(a: &ConfigNode, b: &ConfigNode) {
    assert_eq!(a.key, b.key);
    assert_eq!(a.kind, b.kind);
    assert_eq!(a.value, b.value);
    assert_eq!(a.depth, b.depth);
    assert_eq!(a.description, b.description);
    assert_eq!(a.inner_schema, b.inner_schema);
    assert_eq!(a.children.len(), b.children.len());
    for (x, y) in a.children.iter().zip(b.children.iter()) {
        same_node(x, y);
    }
}

#[test]
fn law_ref_builds_as_definition() {
    let def = json(r#"{"type": "object", "properties": {"n": {"type": "integer"}, "m": {"type": "string"}}}"#);
    let defs = vec![("T".to_string(), def.clone())];
    let by_ref = json(r##"{"$ref": "#/$defs/T"}"##);
    let value = json(r#"{"n": 4, "m": "q"}"#);
    let a = build_node_pub("k", &by_ref, &value, &defs, 1);
    let b = build_node_pub("k", &def, &value, &defs, 1);
    same_node(&a, &b);
    assert_eq!(a.children.len(), 2);
}

#[test]
fn law_radio_group_selects_the_named_variant() {
    let nodes = one_field(r#"{"enum": ["A", "B", "C"]}"#, "\"B\"");
    let group = &nodes[0];
    assert_eq!(group.children.len(), 3);
    let selected: Vec<&str> = group
        .children
        .iter()
        .filter(|c| matches!(c.kind, NodeKind::RadioItem { selected: true, .. }))
        .map(|c| c.key.as_str())
        .collect();
    assert_eq!(selected, vec!["B"]);
    for c in &group.children {
        assert_eq!(c.value, JsonValue::Bool(c.key == "B"));
    }
    for value in ["\"Z\"", "null", "7"] {
        let nodes = one_field(r#"{"enum": ["A", "B"]}"#, value);
        let flags: Vec<JsonValue> = nodes[0].children.iter().map(|c| c.value.clone()).collect();
        assert_eq!(flags, vec![JsonValue::Bool(true), JsonValue::Bool(false)]);
        assert!(matches!(nodes[0].children[0].kind, NodeKind::RadioItem { selected: true, .. }));
    }
}

#[test]
fn struct_variant_without_fields_reads_back_as_an_object() {
    let schema = json(
        r#"{"properties": {"x": {"oneOf": [
            {"type": "object", "properties": {"Empty": {"type": "object", "properties": {}}}, "required": ["Empty"]},
            {"const": "Unit"}
        ]}}}"#,
    );
    let value = json(r#"{"x": {"Empty": {}}}"#);
    let state = TreeState::new(&schema, &value);
    assert_eq!(state.to_value(), value);
    let value = json(r#"{"x": "Unit"}"#);
    let state = TreeState::new(&schema, &value);
    assert_eq!(state.to_value(), value);
}

#[test]
fn law_round_trip_on_a_nested_config() {
    let schema = json(
        r##"{
        "properties": {
            "name": {"type": "string"},
            "server": {"$ref": "#/$defs/Server"},
            "backup": {"anyOf": [{"$ref": "#/$defs/Server"}, {"type": "null"}]},
            "note": {"type": ["string", "null"]},
            "shape": {"oneOf": [
                {"type": "object", "properties": {"Circle": {"type": "object", "properties": {"r": {"type": "integer"}}}}},
                {"const": "Dot"}
            ]},
            "tags": {"type": "array", "items": {"enum": ["A", "B", "C"]}}
        },
        "required": ["server", "name"],
        "$defs": {
            "Server": {"type": "object", "properties": {"host": {"type": "string"}, "port": {"type": "integer"}}}
        }
    }"##,
    );
    for value in [
        r#"{"backup": {"host": "b", "port": 2}, "name": "n", "note": "x", "server": {"host": "h", "port": 1},
            "shape": {"Circle": {"r": 3}}, "tags": ["A", "C"]}"#,
        r#"{"backup": null, "name": "n", "note": null, "server": {"host": "h", "port": 1},
            "shape": "Dot", "tags": []}"#,
    ] {
        let value = json(value);
        let state = TreeState::new(&schema, &value);
        assert_eq!(state.to_value(), value);
    }
}

fn depths_ok(n: &ConfigNode) -> bool {
    n.children.iter().all(|c| c.depth == n.depth + 1 && depths_ok(c))
}

#[test]
fn law_built_tree_depths() {
    let schema = json(
        r#"{"properties": {
            "s": {"type": "object", "properties": {"a": {"type": "integer"}}},
            "o": {"anyOf": [{"type": "object", "properties": {"b": {"type": "string"}}}, {"type": "null"}]},
            "e": {"oneOf": [{"type": "object", "properties": {"V": {"type": "object", "properties": {"c": {"type": "boolean"}}}}}]},
            "t": {"type": "array", "items": {"enum": ["X", "Y"]}}
        }}"#,
    );
    let value = json(r#"{"s": {"a": 1}, "o": {"b": "q"}, "e": {"V": {"c": true}}, "t": ["Y"]}"#);
    let nodes = build_tree(&schema, &value);
    assert_eq!(nodes.len(), 4);
    for n in &nodes {
        assert_eq!(n.depth, 0);
        assert!(depths_ok(n));
    }
    let e = nodes.iter().find(|n| n.key == "e").unwrap();
    assert_eq!(e.children[0].depth, 1);
    assert_eq!(e.children[0].children[0].depth, 2);
}
