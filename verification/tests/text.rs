use schema_tui::buffer::{char_index_at, cursor_ok_exec, splice};
use schema_tui::json::{entries_insert, key_less_exec, JsonValue};
use schema_tui::layout::write_json;
use schema_tui::text::{
    byte_len_exec, chars_of, concat_strings, i64_to_string, join_path_exec, last_dot_exec, parse_i64_exec,
    split_dots_exec, str_eq, string_from_chars, u64_to_string,
};

#[test]
fn integers_parse_like_std() {
    assert_eq!(parse_i64_exec("42"), Some(42));
    assert_eq!(parse_i64_exec("-42"), Some(-42));
    assert_eq!(parse_i64_exec("+7"), Some(7));
    assert_eq!(parse_i64_exec("-0"), Some(0));
    assert_eq!(parse_i64_exec("007"), Some(7));
    assert_eq!(parse_i64_exec("9223372036854775807"), Some(i64::MAX));
    assert_eq!(parse_i64_exec("-9223372036854775808"), Some(i64::MIN));
    assert_eq!(parse_i64_exec("9223372036854775808"), None);
    assert_eq!(parse_i64_exec(""), None);
    assert_eq!(parse_i64_exec("-"), None);
    assert_eq!(parse_i64_exec("+"), None);
    assert_eq!(parse_i64_exec("1.5"), None);
    assert_eq!(parse_i64_exec(" 1"), None);
    assert_eq!(parse_i64_exec("12a"), None);
    for s in ["1", "-5", "+12", "99999", "abc", "", "-"] {
        assert_eq!(parse_i64_exec(s), s.parse::<i64>().ok());
    }
}

#[test]
fn integers_print_like_std() {
    for n in [0i64, 7, 10, -1, -10, 123456, i64::MAX, i64::MIN] {
        assert_eq!(i64_to_string(n), n.to_string());
        assert_eq!(parse_i64_exec(&i64_to_string(n)), Some(n));
    }
    for n in [0u64, 9, 10, 99, 100, u64::MAX] {
        assert_eq!(u64_to_string(n), n.to_string());
    }
}

#[test]
fn paths_split_and_join() {
    assert_eq!(split_dots_exec("a.b.c"), vec!["a", "b", "c"]);
    assert_eq!(split_dots_exec(""), vec![""]);
    assert_eq!(split_dots_exec("a..b"), vec!["a", "", "b"]);
    assert_eq!(split_dots_exec(".x."), vec!["", "x", ""]);
    assert_eq!(join_path_exec("", "key"), "key");
    assert_eq!(join_path_exec("server", "port"), "server.port");
    assert_eq!(last_dot_exec(&chars_of("a.b.c")), Some(3));
    assert_eq!(last_dot_exec(&chars_of("abc")), None);
}

#[test]
fn strings_and_characters() {
    assert!(str_eq("héllo", "héllo"));
    assert!(!str_eq("héllo", "hello"));
    assert!(!str_eq("ab", "abc"));
    assert_eq!(byte_len_exec("aé€😀"), 10);
    assert_eq!(chars_of("aé€"), vec!['a', 'é', '€']);
    assert_eq!(string_from_chars(&chars_of("abcdef"), 1, 4), "bcd");
    assert_eq!(concat_strings("ab", "cé"), "abcé");
}

#[test]
fn buffer_positions_are_characters() {
    let cs = chars_of("aé€b");
    assert_eq!(char_index_at(&cs, 0), 0);
    assert_eq!(char_index_at(&cs, 1), 1);
    assert_eq!(char_index_at(&cs, 3), 2);
    assert_eq!(char_index_at(&cs, 6), 3);
    assert_eq!(char_index_at(&cs, 7), 4);
    assert_eq!(splice(&cs, 1, 2, None), "a€b");
    assert_eq!(splice(&cs, 2, 2, Some('x')), "aéx€b");
    assert_eq!(splice(&cs, 0, 4, Some('z')), "z");
}

fn json_text(v: &JsonValue) -> String {
    let mut s = String::new();
    write_json(&mut s, v);
    s
}

#[test]
fn json_text_is_compact_and_escaped() {
    assert_eq!(json_text(&JsonValue::Null), "null");
    assert_eq!(json_text(&JsonValue::Bool(true)), "true");
    assert_eq!(json_text(&JsonValue::Number("-1.5".to_string())), "-1.5");
    assert_eq!(
        json_text(&JsonValue::String("a\"b\\c\n\t\u{1}\u{8}\u{c}\r/é".to_string())),
        "\"a\\\"b\\\\c\\n\\t\\u0001\\b\\f\\r/é\""
    );
    assert_eq!(json_text(&JsonValue::Array(Vec::new())), "[]");
    assert_eq!(json_text(&JsonValue::Object(Vec::new())), "{}");
    let v = JsonValue::Object(vec![
        ("k".to_string(), JsonValue::Array(vec![JsonValue::Null, JsonValue::Number("2".to_string())])),
        ("z".to_string(), JsonValue::String("x".to_string())),
    ]);
    assert_eq!(json_text(&v), "{\"k\":[null,2],\"z\":\"x\"}");
    let control = JsonValue::String("\u{1f}".to_string());
    assert_eq!(json_text(&control), serde_json::to_string(&serde_json::Value::String("\u{1f}".to_string())).unwrap());
}

#[test]
fn json_values_answer_lookups() {
    let v = JsonValue::Object(vec![
        ("a".to_string(), JsonValue::Bool(true)),
        ("a".to_string(), JsonValue::Bool(false)),
        ("s".to_string(), JsonValue::String("x".to_string())),
    ]);
    assert_eq!(v.get("a"), Some(&JsonValue::Bool(true)));
    assert_eq!(v.get("b"), None);
    assert_eq!(v.get("s").unwrap().as_str().map(|s| s.as_str()), Some("x"));
    assert_eq!(v.get("a").unwrap().as_bool(), Some(true));
    assert!(JsonValue::Null.is_null());
    assert!(v.as_object().is_some());
    assert!(v.as_array().is_none());
    assert_eq!(v.deep_clone(), v);
}

#[test]
fn keys_order_like_strings() {
    for (a, b) in [("a", "b"), ("a", "ab"), ("", "a"), ("Z", "a"), ("ab", "b"), ("é", "z"), ("a", "a"), ("b", "a")] {
        assert_eq!(key_less_exec(a, b), a < b, "{a} {b}");
    }
}

#[test]
fn entries_insert_keeps_key_order() {
    let mut e: Vec<(String, JsonValue)> = Vec::new();
    for k in ["port", "host", "tls", "alpha", "port"] {
        entries_insert(&mut e, k.to_string(), JsonValue::Bool(k == "port"));
    }
    let keys: Vec<&str> = e.iter().map(|(k, _)| k.as_str()).collect();
    assert_eq!(keys, vec!["alpha", "host", "port", "tls"]);
}

#[test]
fn cursor_boundaries() {
    assert!(cursor_ok_exec("aé", 0));
    assert!(cursor_ok_exec("aé", 1));
    assert!(!cursor_ok_exec("aé", 2));
    assert!(cursor_ok_exec("aé", 3));
    assert!(!cursor_ok_exec("aé", 4));
}
