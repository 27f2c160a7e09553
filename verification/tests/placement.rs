use web_app_hub::json::{JsonMember, JsonValue};
use web_app_hub::placement::{
    checked_geometry_flags, find_placement, flags_from_placement, geometry_flags, geometry_pinned,
    placement_fits, prefs_placement,
};

fn to_model(value: &serde_json::Value) -> JsonValue {
    match value {
        serde_json::Value::Null => JsonValue::Null,
        serde_json::Value::Bool(b) => JsonValue::Bool(*b),
        serde_json::Value::Number(n) => JsonValue::Number(n.as_i64()),
        serde_json::Value::String(s) => JsonValue::Text(s.clone()),
        serde_json::Value::Array(items) => JsonValue::Array(items.iter().map(to_model).collect()),
        serde_json::Value::Object(map) => JsonValue::Object(
            map.iter()
                .map(|(k, v)| JsonMember { key: k.clone(), value: to_model(v) })
                .collect(),
        ),
    }
}

fn json(text: &str) -> JsonValue {
    to_model(&serde_json::from_str(text).unwrap())
}

fn placement(text: &str) -> Vec<JsonMember> {
    let value = json(text);
    let found = find_placement(&value).unwrap();
    found
        .iter()
        .map(|m| JsonMember { key: m.key.clone(), value: copy(&m.value) })
        .collect()
}

fn copy(value: &JsonValue) -> JsonValue {
    match value {
        JsonValue::Null => JsonValue::Null,
        JsonValue::Bool(b) => JsonValue::Bool(*b),
        JsonValue::Number(n) => JsonValue::Number(*n),
        JsonValue::Text(s) => JsonValue::Text(s.clone()),
        JsonValue::Array(items) => JsonValue::Array(items.iter().map(copy).collect()),
        JsonValue::Object(members) => JsonValue::Object(
            members
                .iter()
                .map(|m| JsonMember { key: m.key.clone(), value: copy(&m.value) })
                .collect(),
        ),
    }
}

fn strings(items: &[&str]) -> Vec<String> {
    items.iter().map(|s| s.to_string()).collect()
}

#[test]
fn finds_nested_placement_leaf() {
    let map = placement(
        r#"{ "example": { "com_/": { "left": 80, "top": 80, "right": 680, "bottom": 530, "maximized": false } } }"#,
    );
    assert_eq!(
        flags_from_placement(&map),
        Some(vec![
            "--window-size=600,450".to_string(),
            "--window-position=80,80".to_string(),
        ])
    );
}

#[test]
fn maximized_placement_starts_maximized() {
    let map = placement(
        r#"{ "a": { "b": { "left": 0, "top": 0, "right": 100, "bottom": 100, "maximized": true } } }"#,
    );
    assert_eq!(
        flags_from_placement(&map),
        Some(vec!["--start-maximized".to_string()])
    );
}

#[test]
fn zero_area_placement_is_ignored() {
    let map = placement(
        r#"{ "a": { "b": { "left": 50, "top": 50, "right": 50, "bottom": 50, "maximized": false } } }"#,
    );
    assert_eq!(flags_from_placement(&map), None);
}

#[test]
fn skips_when_geometry_already_pinned() {
    let cmd = vec!["brave-browser".to_string(), "--start-maximized".to_string()];
    assert_eq!(geometry_flags(&cmd, None), None);
    let prefs = r#"{ "browser": { "app_window_placement": { "a": { "left": 1, "top": 2, "right": 11, "bottom": 22 } } } }"#;
    assert_eq!(geometry_flags(&cmd, Some(prefs)), None);
}

#[test]
fn geometry_flags_read_the_saved_placement() {
    let cmd = strings(&["chromium", "--app=https://example.com"]);
    let prefs = r#"{ "browser": { "app_window_placement": { "a": { "left": -10, "top": 2, "right": 11, "bottom": 22 } } }, "other": 1 }"#;
    assert_eq!(
        geometry_flags(&cmd, Some(prefs)),
        Some(strings(&["--window-size=21,20", "--window-position=-10,2"]))
    );
    assert_eq!(geometry_flags(&cmd, None), None);
    let no_browser = r#"{ "app_window_placement": { "left": 1, "right": 2 } }"#;
    assert_eq!(geometry_flags(&cmd, Some(no_browser)), None);
    assert_eq!(geometry_flags(&cmd, Some("{ not json")), None);
    let maximized = r#"{ "browser": { "app_window_placement": { "x": { "left": 0, "right": 5, "maximized": true } } } }"#;
    assert_eq!(geometry_flags(&cmd, Some(maximized)), Some(strings(&["--start-maximized"])));
}

#[test]
fn pinning_flags_are_recognised_by_prefix() {
    assert!(geometry_pinned(&strings(&["b", "--window-size=1,2"])));
    assert!(geometry_pinned(&strings(&["b", "--window-position"])));
    assert!(!geometry_pinned(&strings(&["b", "--start-maximized=1"])));
    assert!(!geometry_pinned(&strings(&["b", "-window-size"])));
    assert!(!geometry_pinned(&strings(&[])));
}

#[test]
fn first_object_with_left_and_right_is_the_placement() {
    let value = json(r#"{ "a": { "left": 1 }, "b": [ { "left": 1, "right": 2 } ], "c": { "right": 5, "left": 3, "x": 9 } }"#);
    let found = find_placement(&value).unwrap();
    let keys: Vec<&str> = found.iter().map(|m| m.key.as_str()).collect();
    assert_eq!(keys, ["left", "right", "x"]);
}

#[test]
fn placement_needs_all_four_integer_edges() {
    let map = placement(r#"{ "left": 1, "right": 5, "top": 1 }"#);
    assert_eq!(flags_from_placement(&map), None);
    let map = placement(r#"{ "left": 1, "right": 5, "top": 1, "bottom": 2.5 }"#);
    assert_eq!(flags_from_placement(&map), None);
    let map = placement(r#"{ "left": 1, "right": 5, "top": 3, "bottom": 2 }"#);
    assert_eq!(flags_from_placement(&map), None);
}

#[test]
fn overflowing_geometry_does_not_fit() {
    let map = placement(r#"{ "left": -9223372036854775808, "right": 1, "top": 0, "bottom": 1 }"#);
    assert!(!placement_fits(&map));
    let map = placement(r#"{ "left": -9223372036854775808, "right": 1, "top": 0, "bottom": 1, "maximized": true }"#);
    assert!(placement_fits(&map));
    assert_eq!(flags_from_placement(&map), Some(strings(&["--start-maximized"])));
    let map = placement(r#"{ "left": 0, "right": 1, "top": 0, "bottom": 1 }"#);
    assert!(placement_fits(&map));
}

#[test]
fn prefs_placement_descends_into_browser_entry() {
    let prefs = json(r#"{ "browser": { "app_window_placement": { "x": { "y": { "left": 4, "right": 8 } } } } }"#);
    let found = prefs_placement(&prefs).unwrap();
    assert_eq!(found.len(), 2);
    assert!(prefs_placement(&json("[]")).is_none());
}

#[test]
fn checked_geometry_flags_refuses_overflowing_placement() {
    let cmd = strings(&["chromium"]);
    let huge = r#"{ "browser": { "app_window_placement": { "left": -9223372036854775808, "right": 1, "top": 0, "bottom": 1 } } }"#;
    assert_eq!(checked_geometry_flags(&cmd, Some(huge)), None);
    let pinned = strings(&["chromium", "--window-size=1,1"]);
    assert_eq!(checked_geometry_flags(&pinned, Some(huge)), Some(None));
    let fine = r#"{ "browser": { "app_window_placement": { "left": 0, "right": 10, "top": 0, "bottom": 5 } } }"#;
    assert_eq!(
        checked_geometry_flags(&cmd, Some(fine)),
        Some(Some(strings(&["--window-size=10,5", "--window-position=0,0"])))
    );
}
