use recur::fields::{filter_fields_with_status, json_reply, pick, JsonValue};

fn s(x: &str) -> JsonValue {
    JsonValue::Str(x.to_string())
}

fn n(x: &str) -> JsonValue {
    JsonValue::Number(x.to_string())
}

fn obj(entries: Vec<(&str, JsonValue)>) -> JsonValue {
    JsonValue::Object(entries.into_iter().map(|(k, v)| (k.to_string(), v)).collect())
}

fn arr(items: Vec<JsonValue>) -> JsonValue {
    JsonValue::Array(items)
}

/// JSON equality: objects compare as maps.
fn same(a: &JsonValue, b: &JsonValue) -> bool {
    match (a, b) {
        (JsonValue::Object(x), JsonValue::Object(y)) => {
            x.len() == y.len()
                && x.iter().all(|(k, v)| y.iter().any(|(k2, v2)| k == k2 && same(v, v2)))
        }
        (JsonValue::Array(x), JsonValue::Array(y)) => {
            x.len() == y.len() && x.iter().zip(y.iter()).all(|(p, q)| same(p, q))
        }
        _ => a == b,
    }
}

fn get<'a>(v: &'a JsonValue, key: &str) -> Option<&'a JsonValue> {
    match v {
        JsonValue::Object(es) => es.iter().find(|(k, _)| k == key).map(|(_, v)| v),
        _ => None,
    }
}

#[test]
fn pick_single_field() {
    let value = obj(vec![("name", s("test")), ("age", n("30")), ("city", s("Amsterdam"))]);
    let result = pick(&value, &["name"]);
    assert!(same(&result, &obj(vec![("name", s("test"))])));
}

#[test]
fn pick_multiple_fields() {
    let value = obj(vec![("name", s("test")), ("age", n("30")), ("city", s("Amsterdam"))]);
    let result = pick(&value, &["name", "city"]);
    assert!(same(&result, &obj(vec![("name", s("test")), ("city", s("Amsterdam"))])));
}

#[test]
fn pick_missing_field_ignored() {
    let value = obj(vec![("name", s("test"))]);
    let result = pick(&value, &["name", "nonexistent"]);
    assert!(same(&result, &obj(vec![("name", s("test"))])));
}

#[test]
fn pick_nested_dot_path() {
    let value = obj(vec![
        ("user", s("root")),
        ("details", obj(vec![("email", s("root@localhost")), ("shell", s("/bin/bash"))])),
    ]);
    let result = pick(&value, &["details.email"]);
    assert!(same(&result, &obj(vec![("details", obj(vec![("email", s("root@localhost"))]))])));
}

#[test]
fn pick_nested_array_dot_path() {
    let value = obj(vec![(
        "issues",
        arr(vec![
            obj(vec![("severity", s("Error")), ("message", s("not found"))]),
            obj(vec![("severity", s("Warning")), ("message", s("no redirect"))]),
        ]),
    )]);
    let result = pick(&value, &["issues.severity"]);
    let issues = match get(&result, "issues") {
        Some(JsonValue::Array(items)) => items,
        _ => panic!("issues should be an array"),
    };
    assert!(same(&issues[0], &obj(vec![("severity", s("Error"))])));
    assert!(same(&issues[1], &obj(vec![("severity", s("Warning"))])));
}

#[test]
fn filter_fields_array_input() {
    let value = arr(vec![
        obj(vec![("user", s("root")), ("schedule", s("* * * * *")), ("command", s("echo hi"))]),
        obj(vec![("user", s("test")), ("schedule", s("0 * * * *")), ("command", s("echo bye"))]),
    ]);
    let result = filter_fields_with_status(&value, "user,schedule", true);
    let data = match get(&result, "data") {
        Some(JsonValue::Array(items)) => items,
        _ => panic!("data should be an array"),
    };
    assert_eq!(data.len(), 2);
    assert!(same(&data[0], &obj(vec![("user", s("root")), ("schedule", s("* * * * *"))])));
    assert!(get(&data[0], "command").is_none());
}

#[test]
fn filter_fields_object_input() {
    let value = obj(vec![("expression", s("*/5 * * * *")), ("description", s("every 5 minutes"))]);
    let result = filter_fields_with_status(&value, "description", true);
    assert!(same(get(&result, "data").unwrap(), &obj(vec![("description", s("every 5 minutes"))])));
    assert_eq!(get(&result, "ok"), Some(&JsonValue::Bool(true)));
}

#[test]
fn filter_fields_scalar_input() {
    let value = n("42");
    let result = filter_fields_with_status(&value, "anything", true);
    assert_eq!(get(&result, "data"), Some(&n("42")));
    assert_eq!(get(&result, "ok"), Some(&JsonValue::Bool(true)));
}

#[test]
fn pick_all_fields_missing() {
    let value = obj(vec![("a", n("1"))]);
    let result = pick(&value, &["x", "y", "z"]);
    assert!(same(&result, &obj(vec![])));
}

#[test]
fn filter_fields_whitespace_trimmed() {
    let value = obj(vec![("name", s("test")), ("age", n("30"))]);
    let result = filter_fields_with_status(&value, " name , age ", true);
    assert!(same(get(&result, "data").unwrap(), &obj(vec![("name", s("test")), ("age", n("30"))])));
}

#[test]
fn filter_fields_with_ok_false() {
    let value = obj(vec![("issues", arr(vec![obj(vec![("severity", s("Error"))])]))]);
    let result = filter_fields_with_status(&value, "issues", false);
    assert_eq!(get(&result, "ok"), Some(&JsonValue::Bool(false)));
    let data = get(&result, "data").unwrap();
    assert!(matches!(get(data, "issues"), Some(JsonValue::Array(_))));
}

#[test]
fn filter_fields_with_ok_true() {
    let value = obj(vec![("issues", arr(vec![]))]);
    let result = filter_fields_with_status(&value, "issues", true);
    assert_eq!(get(&result, "ok"), Some(&JsonValue::Bool(true)));
}

#[test]
fn pick_repeated_field_keeps_one_entry() {
    let value = obj(vec![("a", n("1")), ("b", n("2"))]);
    let result = pick(&value, &["a", "a", "b.c"]);
    assert!(same(&result, &obj(vec![("a", n("1")), ("b", obj(vec![]))])));
}

#[test]
fn pick_from_non_object_is_empty() {
    let result = pick(&arr(vec![n("1")]), &["a"]);
    assert!(same(&result, &obj(vec![])));
    let result = pick(&obj(vec![("a", arr(vec![n("1"), obj(vec![("b", JsonValue::Null)])]))]), &["a.b"]);
    assert!(same(&result, &obj(vec![("a", arr(vec![obj(vec![]), obj(vec![("b", JsonValue::Null)])]))])));
}

#[test]
fn reply_without_fields() {
    let r = json_reply(s("x"), None, false);
    assert!(same(&r, &obj(vec![("ok", JsonValue::Bool(false)), ("data", s("x"))])));
    let r = json_reply(obj(vec![("a", n("1")), ("b", n("2"))]), Some("b"), true);
    assert!(same(&r, &obj(vec![("ok", JsonValue::Bool(true)), ("data", obj(vec![("b", n("2"))]))])));
}
