use renvar::{
    case_insensitive_postfixed, case_insensitive_prefixed, postfixed, prefixed, Error, Field,
    Kind, Value,
};

fn key_shape() -> Vec<Field> {
    vec![Field::new("key", Kind::Str)]
}

fn key_value() -> Vec<Value> {
    vec![Value::Str(String::from("value"))]
}

#[test]
fn prefix_test_prefixed() {
    let vars = vec![(String::from("APP_KEY"), String::from("value"))];
    let prefixed = prefixed("APP_").from_env(vars, &key_shape()).unwrap();
    assert_eq!(prefixed, key_value());
}

#[test]
fn prefixed_test_prefixed() {
    let vars = vec![(String::from("APP_KEY"), String::from("value"))];
    let prefixed = prefixed("APP_").from_iter(vars, &key_shape()).unwrap();
    assert_eq!(prefixed, key_value());
}

#[test]
fn prefix_test_case_insensitive_prefixed() {
    let vars = vec![(String::from("APP_KEY"), String::from("value"))];
    let prefixed = case_insensitive_prefixed("app_").from_env(vars, &key_shape()).unwrap();
    assert_eq!(prefixed, key_value());
}

#[test]
fn case_insensitive_test_case_insensitive_prefixed() {
    let vars = vec![(String::from("APP_KEY"), String::from("value"))];
    let prefixed = case_insensitive_prefixed("app_").from_iter(vars, &key_shape()).unwrap();
    assert_eq!(prefixed, key_value());
}

#[test]
fn postfix_test_postfixed() {
    let vars = vec![(String::from("KEY_APP"), String::from("value"))];
    let postfixed = postfixed("_APP").from_env(vars, &key_shape()).unwrap();
    assert_eq!(postfixed, key_value());
}

#[test]
fn postfixed_test_postfixed() {
    let vars = vec![(String::from("KEY_APP"), String::from("value"))];
    let postfixed = postfixed("_APP").from_iter(vars, &key_shape()).unwrap();
    assert_eq!(postfixed, key_value());
}

#[test]
fn postfix_test_case_insensitive_postfixed() {
    let vars = vec![(String::from("KEY_APP"), String::from("value"))];
    let postfixed = case_insensitive_postfixed("_app").from_env(vars, &key_shape()).unwrap();
    assert_eq!(postfixed, key_value());
}

#[test]
fn case_insensitive_postfixed_test_case_insensitive_postfixed() {
    let vars = vec![(String::from("KEY_APP"), String::from("value"))];
    let postfixed = case_insensitive_postfixed("_app").from_iter(vars, &key_shape()).unwrap();
    assert_eq!(postfixed, key_value());
}

#[test]
fn prefix_filter_ignores_other_keys() {
    let vars = vec![
        (String::from("APP_KEY"), String::from("value")),
        (String::from("OTHER"), String::from("x")),
    ];
    let filter = prefixed("APP_");
    assert_eq!(filter.prefix(), "APP_");
    let kept = filter.filter(vars.clone());
    assert_eq!(kept, vec![(String::from("KEY"), String::from("value"))]);
    assert_eq!(filter.from_iter(vars, &key_shape()).unwrap(), key_value());
}

#[test]
fn prefix_is_case_sensitive() {
    let vars = vec![(String::from("app_KEY"), String::from("value"))];
    let r = prefixed("APP_").from_iter(vars, &key_shape());
    assert_eq!(r, Err(Error::MissingValue(String::from("key"))));
}

#[test]
fn prefix_is_cut_once() {
    let vars = vec![(String::from("APP_APP_KEY"), String::from("value"))];
    let kept = prefixed("APP_").filter(vars);
    assert_eq!(kept, vec![(String::from("APP_KEY"), String::from("value"))]);
}

#[test]
fn postfix_is_cut_once() {
    let vars = vec![(String::from("KEY_APP_APP"), String::from("value"))];
    let kept = postfixed("_APP").filter(vars);
    assert_eq!(kept, vec![(String::from("KEY_APP"), String::from("value"))]);
    let vars = vec![(String::from("X_APP_APP"), String::from("v"))];
    let kept = case_insensitive_postfixed("_app").filter(vars);
    assert_eq!(kept, vec![(String::from("x_app"), String::from("v"))]);
    let vars = vec![(String::from("APP_APP_X"), String::from("v"))];
    let kept = case_insensitive_prefixed("app_").filter(vars);
    assert_eq!(kept, vec![(String::from("app_x"), String::from("v"))]);
}

#[test]
fn case_insensitive_filters_lowercase_the_key() {
    let vars = vec![
        (String::from("App_Key"), String::from("v")),
        (String::from("Other"), String::from("x")),
    ];
    let filter = case_insensitive_prefixed("APP_");
    assert_eq!(filter.prefix(), "APP_");
    assert_eq!(filter.filter(vars), vec![(String::from("key"), String::from("v"))]);
    let vars = vec![(String::from("Key_App"), String::from("v"))];
    let filter = case_insensitive_postfixed("_APP");
    assert_eq!(filter.postfix(), "_APP");
    assert_eq!(filter.filter(vars), vec![(String::from("key"), String::from("v"))]);
}

#[test]
fn affix_filters_read_raw_snapshots() {
    let vars = vec![(b"APP_KEY".to_vec(), b"value".to_vec())];
    assert_eq!(prefixed("APP_").from_os_env(vars, &key_shape()).unwrap(), key_value());
    let vars = vec![(b"KEY_APP".to_vec(), vec![0xff, 0xfe])];
    assert_eq!(
        postfixed("_APP").from_os_env(vars, &key_shape()),
        Err(Error::InvalidUnicode(vec![0xff, 0xfe]))
    );
    let vars = vec![(b"key_app".to_vec(), b"value".to_vec())];
    assert_eq!(
        case_insensitive_postfixed("_APP").from_os_env(vars, &key_shape()).unwrap(),
        key_value()
    );
    let vars = vec![(b"app_key".to_vec(), b"value".to_vec())];
    assert_eq!(
        case_insensitive_prefixed("APP_").from_os_env(vars, &key_shape()).unwrap(),
        key_value()
    );
}

#[test]
fn prefix_filter_ignores_interleaved_keys() {
    let fields = vec![Field::new("key", Kind::Str), Field::new("other", Kind::Optional(Box::new(Kind::Str)))];
    let vars = vec![
        (String::from("OTHER"), String::from("x")),
        (String::from("APP_KEY"), String::from("value")),
        (String::from("other"), String::from("y")),
    ];
    let r = prefixed("APP_").from_iter(vars, &fields).unwrap();
    assert_eq!(r, vec![Value::Str(String::from("value")), Value::Absent]);
}
