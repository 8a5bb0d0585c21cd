use kaede::error::PatchError;
use kaede::heroic::{
    apply_env_to_heroic_json, desired_env, heroic_config_matches_game, order_heroic_candidates,
    parse_env_option_entry, validate_env_in_heroic_json, JsonValue,
};

fn s(x: &str) -> JsonValue {
    JsonValue::Str(x.to_string())
}

fn obj(entries: Vec<(&str, JsonValue)>) -> JsonValue {
    JsonValue::Object(entries.into_iter().map(|(k, v)| (k.to_string(), v)).collect())
}

fn pair(k: &str, v: &str) -> JsonValue {
    obj(vec![("key", s(k)), ("value", s(v))])
}

fn field<'a>(j: &'a JsonValue, k: &str) -> Option<&'a JsonValue> {
    match j {
        JsonValue::Object(o) => o.iter().find(|(key, _)| key == k).map(|(_, v)| v),
        _ => None,
    }
}

fn str_field(j: &JsonValue, k: &str) -> Option<String> {
    match field(j, k) {
        Some(JsonValue::Str(x)) => Some(x.clone()),
        _ => None,
    }
}

fn option_pairs(j: &JsonValue, app: &str) -> Vec<(String, String)> {
    match field(field(j, app).unwrap(), "enviromentOptions") {
        Some(JsonValue::Array(a)) => a.iter().filter_map(parse_env_option_entry).collect(),
        _ => panic!("no options"),
    }
}

fn config() -> JsonValue {
    obj(vec![
        ("envVariables", obj(vec![("FOO", s("bar")), ("DRI_PRIME", s("0"))])),
        (
            "foo",
            obj(vec![
                ("enviromentOptions", JsonValue::Array(vec![pair("FOO2", "x"), pair("DRI_PRIME", "0")])),
                ("wineVersion", obj(vec![])),
            ]),
        ),
    ])
}

#[test]
fn merge_sets_both_representations() {
    let mut j = config();
    let env = vec!["DRI_PRIME=1".to_string()];
    assert_eq!(apply_env_to_heroic_json(&mut j, "foo", &env), Ok(true));
    let vars = field(&j, "envVariables").unwrap();
    assert_eq!(str_field(vars, "FOO").as_deref(), Some("bar"));
    assert_eq!(str_field(vars, "DRI_PRIME").as_deref(), Some("1"));
    assert_eq!(str_field(vars, "KAEDE_GPU_MANAGED").as_deref(), Some("1"));
    assert_eq!(
        option_pairs(&j, "foo"),
        vec![
            ("FOO2".to_string(), "x".to_string()),
            ("DRI_PRIME".to_string(), "1".to_string()),
            ("KAEDE_GPU_MANAGED".to_string(), "1".to_string()),
        ]
    );
    assert!(field(field(&j, "foo").unwrap(), "wineVersion").is_some());
    assert!(validate_env_in_heroic_json(&j, "foo", &env));
}

#[test]
fn merge_twice_is_noop() {
    let mut j = config();
    let env = vec!["DRI_PRIME=1".to_string(), "__NV_PRIME_RENDER_OFFLOAD=1".to_string()];
    assert_eq!(apply_env_to_heroic_json(&mut j, "foo", &env), Ok(true));
    assert_eq!(apply_env_to_heroic_json(&mut j, "foo", &env), Ok(false));
}

#[test]
fn default_removes_managed_keys() {
    let mut j = config();
    let env = vec!["DRI_PRIME=1".to_string()];
    apply_env_to_heroic_json(&mut j, "foo", &env).unwrap();
    assert_eq!(apply_env_to_heroic_json(&mut j, "foo", &[]), Ok(true));
    let vars = field(&j, "envVariables").unwrap();
    assert_eq!(str_field(vars, "FOO").as_deref(), Some("bar"));
    assert_eq!(str_field(vars, "DRI_PRIME"), None);
    assert_eq!(str_field(vars, "KAEDE_GPU_MANAGED"), None);
    assert_eq!(option_pairs(&j, "foo"), vec![("FOO2".to_string(), "x".to_string())]);
    assert!(validate_env_in_heroic_json(&j, "foo", &[]));
}

#[test]
fn array_form_is_kept() {
    let mut j = obj(vec![
        (
            "envVariables",
            JsonValue::Array(vec![
                obj(vec![("name", s("DXVK_FILTER_DEVICE_NAME")), ("value", s("x"))]),
                obj(vec![("name", s("DRI_PRIME")), ("value", s("0"))]),
                obj(vec![("name", s("USER")), ("value", s("y"))]),
            ]),
        ),
        ("foo", obj(vec![])),
    ]);
    let env = vec!["DRI_PRIME=1".to_string()];
    assert_eq!(apply_env_to_heroic_json(&mut j, "foo", &env), Ok(true));
    match field(&j, "envVariables").unwrap() {
        JsonValue::Array(a) => {
            let names: Vec<String> = a.iter().map(|i| str_field(i, "name").unwrap()).collect();
            assert_eq!(names, vec!["DRI_PRIME", "USER", "KAEDE_GPU_MANAGED"]);
            assert_eq!(str_field(&a[0], "value").as_deref(), Some("1"));
        }
        _ => panic!("expected an array"),
    }
    assert!(validate_env_in_heroic_json(&j, "foo", &env));
}

#[test]
fn missing_env_field_is_created() {
    let mut j = obj(vec![("foo", obj(vec![]))]);
    let env = vec!["DRI_PRIME=2".to_string()];
    assert_eq!(apply_env_to_heroic_json(&mut j, "foo", &env), Ok(true));
    let vars = field(&j, "envVariables").unwrap();
    assert_eq!(str_field(vars, "DRI_PRIME").as_deref(), Some("2"));
}

#[test]
fn non_object_root_is_parse_failure() {
    let mut j = JsonValue::Array(vec![]);
    assert_eq!(apply_env_to_heroic_json(&mut j, "foo", &[]), Err(PatchError::ParseFailure));
}

#[test]
fn validation_needs_game_object() {
    let j = obj(vec![("envVariables", obj(vec![]))]);
    assert!(!validate_env_in_heroic_json(&j, "foo", &[]));
    let j = obj(vec![("envVariables", s("x")), ("foo", obj(vec![]))]);
    assert!(!validate_env_in_heroic_json(&j, "foo", &[]));
}

#[test]
fn option_entries() {
    assert_eq!(parse_env_option_entry(&s("A=b=c")), Some(("A".to_string(), "b=c".to_string())));
    assert_eq!(parse_env_option_entry(&s("A")), None);
    assert_eq!(
        parse_env_option_entry(&obj(vec![("name", s("K")), ("value", s("v"))])),
        Some(("K".to_string(), "v".to_string()))
    );
    assert_eq!(parse_env_option_entry(&obj(vec![("key", s("K"))])), None);
}

#[test]
fn desired_variables() {
    let d = desired_env(&["A=1".to_string(), "B".to_string(), "A=2".to_string()]);
    assert_eq!(
        d,
        vec![("A".to_string(), "2".to_string()), ("KAEDE_GPU_MANAGED".to_string(), "1".to_string())]
    );
    assert!(desired_env(&[]).is_empty());
}

#[test]
fn config_matching_and_order() {
    let j = obj(vec![("appName", s("FOO"))]);
    assert!(heroic_config_matches_game(&j, "{}", "other", "foo"));
    assert!(heroic_config_matches_game(&obj(vec![]), "{}", " Foo ", "foo"));
    assert!(heroic_config_matches_game(&obj(vec![]), "{\"x\":\"foo\"}", "other", "foo"));
    assert!(!heroic_config_matches_game(&obj(vec![]), "{}", "other", "foo"));
    let stems = vec!["a".to_string(), "FOO".to_string(), "b".to_string(), "foo".to_string()];
    assert_eq!(order_heroic_candidates(&stems, "foo"), vec![1, 3, 0, 2]);
}
