use renvar::{
    from_iter, from_iter_with_trimmer, from_os_env, from_os_env_with_trimmer, from_str,
    EnvVarValue, Error, Field, Kind, Value,
};

fn pair(k: &str, v: &str) -> (String, String) {
    (String::from(k), String::from(v))
}

fn text(s: &str) -> Value {
    Value::Str(String::from(s))
}

#[test]
fn quoted_and_bare_values_agree() {
    let fields = vec![Field::new("key", Kind::Str)];
    let quoted = from_str("key=\"  hello  \"", &fields).unwrap();
    let single = from_str("key='hello'", &fields).unwrap();
    let bare = from_str("key=hello", &fields).unwrap();
    assert_eq!(quoted, vec![text("hello")]);
    assert_eq!(single, bare);
    assert_eq!(quoted, bare);
}

#[test]
fn sequence_split_law() {
    let fields = vec![Field::new("sequence", Kind::Sequence(Box::new(Kind::Str)))];
    let r = from_iter(vec![pair("sequence", "first,second,third")], &fields).unwrap();
    assert_eq!(
        r,
        vec![Value::Sequence(vec![text("first"), text("second"), text("third")])]
    );
    for empty in ["\"\"", "''", "\" \""] {
        let r = from_iter(vec![pair("sequence", empty)], &fields).unwrap();
        assert_eq!(r, vec![Value::Sequence(vec![])]);
    }
}

#[test]
fn sequence_items_are_trimmed_and_converted() {
    let fields = vec![Field::new("ports", Kind::Sequence(Box::new(Kind::U16)))];
    let r = from_iter(vec![pair("ports", "80, '443' ,\"8080\"")], &fields).unwrap();
    assert_eq!(
        r,
        vec![Value::Sequence(vec![Value::U16(80), Value::U16(443), Value::U16(8080)])]
    );
    let r = from_iter(vec![pair("ports", "80,x,y")], &fields);
    assert_eq!(
        r,
        Err(Error::Custom(String::from(
            "invalid digit found in string while parsing value 'x'"
        )))
    );
}

#[test]
fn sequence_cell_splits_once() {
    let cells = EnvVarValue::new(String::from("a, b,,'c'")).deserialize_seq();
    let texts: Vec<String> = cells.into_iter().map(|c| c.0).collect();
    assert_eq!(texts, vec!["a", "b", "", "c"]);
    assert!(EnvVarValue::new(String::from("' \"")).deserialize_seq().is_empty());
}

#[test]
fn option_emptiness_law() {
    let fields = vec![Field::new("optional_field", Kind::Optional(Box::new(Kind::Str)))];
    let r = from_str("optional_field=", &fields).unwrap();
    assert_eq!(r, vec![Value::Absent]);
    let r = from_str("optional_field=value", &fields).unwrap();
    assert_eq!(r, vec![Value::Present(Box::new(text("value")))]);
    let r = from_iter(vec![], &fields).unwrap();
    assert_eq!(r, vec![Value::Absent]);
}

#[test]
fn optional_number_converts_its_text() {
    let fields = vec![Field::new("n", Kind::Optional(Box::new(Kind::I32)))];
    let r = from_iter(vec![pair("n", "-42")], &fields).unwrap();
    assert_eq!(r, vec![Value::Present(Box::new(Value::I32(-42)))]);
}

#[test]
fn keys_match_case_insensitively() {
    let fields = vec![Field::new("key", Kind::Str)];
    for k in ["KEY", "Key", "key"] {
        let r = from_iter(vec![pair(k, "value")], &fields).unwrap();
        assert_eq!(r, vec![text("value")]);
    }
}

#[test]
fn mixed_case_field_names_never_match() {
    let fields = vec![Field::new("myField", Kind::Optional(Box::new(Kind::Str)))];
    let r = from_iter(vec![pair("myField", "v")], &fields).unwrap();
    assert_eq!(r, vec![Value::Absent]);
}

#[test]
fn missing_field_is_reported() {
    let fields = vec![Field::new("name", Kind::Str)];
    let r = from_iter(vec![pair("other", "x")], &fields);
    assert_eq!(r, Err(Error::MissingValue(String::from("name"))));
    assert_eq!(r.unwrap_err().message(), "missing value for name");
}

#[test]
fn unsupported_text_for_numeric_newtype() {
    let fields = vec![Field::new("newtype", Kind::Newtype(Box::new(Kind::U64)))];
    let r = from_str("newtype=abc", &fields);
    match r {
        Err(Error::Custom(m)) => {
            assert!(m.contains("abc"));
            assert!(m.contains("invalid digit"));
            assert_eq!(m, "invalid digit found in string while parsing value 'abc'");
        }
        other => panic!("unexpected {:?}", other),
    }
}

#[test]
fn invalid_text_source_fails_whole() {
    let fields = vec![Field::new("a", Kind::Str), Field::new("b", Kind::Str)];
    let vars = vec![
        (b"a".to_vec(), b"ok".to_vec()),
        (b"b".to_vec(), vec![0x66, 0x6f, 0x80]),
    ];
    let r = from_os_env(vars, &fields);
    assert_eq!(r, Err(Error::InvalidUnicode(vec![0x66, 0x6f, 0x80])));
    assert_eq!(
        r.unwrap_err().message(),
        "invalid unicode found in string: fo\u{FFFD}"
    );
    let vars = vec![(vec![0xc3], b"x".to_vec()), (b"b".to_vec(), vec![0xff])];
    assert_eq!(from_os_env(vars, &fields), Err(Error::InvalidUnicode(vec![0xc3])));
}

#[test]
fn valid_os_snapshot_is_decoded() {
    let fields = vec![Field::new("name", Kind::Str)];
    let vars = vec![("NAME".as_bytes().to_vec(), "\"zoë\"".as_bytes().to_vec())];
    assert_eq!(from_os_env(vars, &fields).unwrap(), vec![text("zoë")]);
}

#[test]
fn end_to_end_scenario() {
    let fields = vec![
        Field::new("name", Kind::Str),
        Field::new("type", Kind::Enumeration(&["Library", "Binary"])),
        Field::new("dependencies", Kind::Sequence(Box::new(Kind::Str))),
    ];
    let pairs = vec![
        pair("name", "renvar"),
        pair("type", "Library"),
        pair("dependencies", "serde"),
    ];
    let r = from_iter(pairs, &fields).unwrap();
    assert_eq!(
        r,
        vec![text("renvar"), Value::Variant(0), Value::Sequence(vec![text("serde")])]
    );
}

#[test]
fn unknown_variant_is_reported() {
    let three = vec![Field::new("e", Kind::Enumeration(&["A", "B", "C"]))];
    assert_eq!(
        from_iter(vec![pair("e", "D")], &three),
        Err(Error::Custom(String::from(
            "unknown variant `D`, expected one of `A`, `B`, `C`"
        )))
    );
    let two = vec![Field::new("e", Kind::Enumeration(&["Library", "Binary"]))];
    assert_eq!(
        from_iter(vec![pair("e", "library")], &two),
        Err(Error::Custom(String::from(
            "unknown variant `library`, expected `Library` or `Binary`"
        )))
    );
    let none = vec![Field::new("e", Kind::Enumeration(&[]))];
    assert_eq!(
        from_iter(vec![pair("e", "x")], &none),
        Err(Error::Custom(String::from("unknown variant `x`, there are no variants")))
    );
}

#[test]
fn duplicate_field_is_reported() {
    let fields = vec![Field::new("key", Kind::Str)];
    let r = from_iter(vec![pair("KEY", "a"), pair("key", "b")], &fields);
    assert_eq!(r, Err(Error::Custom(String::from("duplicate field `key`"))));
}

#[test]
fn unit_struct_name_must_match() {
    let fields = vec![Field::new("unit", Kind::UnitStruct("Unit"))];
    let r = from_iter(vec![pair("unit", "Other")], &fields);
    assert_eq!(
        r,
        Err(Error::Custom(String::from(
            "expected unit struct with name 'Unit', found 'Other'"
        )))
    );
    let fields = vec![Field::new("unit", Kind::Unit)];
    assert_eq!(from_iter(vec![pair("unit", "anything")], &fields).unwrap(), vec![Value::Unit]);
}

#[test]
fn primitives_parse() {
    let fields = vec![
        Field::new("b", Kind::Bool),
        Field::new("u8", Kind::U8),
        Field::new("u32", Kind::U32),
        Field::new("i8", Kind::I8),
        Field::new("i16", Kind::I16),
        Field::new("i64", Kind::I64),
        Field::new("u64", Kind::U64),
    ];
    let pairs = vec![
        pair("b", "true"),
        pair("u8", "+255"),
        pair("u32", "4294967295"),
        pair("i8", "-128"),
        pair("i16", "-300"),
        pair("i64", "9223372036854775807"),
        pair("u64", "18446744073709551615"),
    ];
    assert_eq!(
        from_iter(pairs, &fields).unwrap(),
        vec![
            Value::Bool(true),
            Value::U8(255),
            Value::U32(4294967295),
            Value::I8(-128),
            Value::I16(-300),
            Value::I64(9223372036854775807),
            Value::U64(18446744073709551615),
        ]
    );
}

#[test]
fn primitive_failures_name_the_text() {
    let cases = [
        (Kind::U8, "256", "number too large to fit in target type while parsing value '256'"),
        (Kind::U16, "-1", "invalid digit found in string while parsing value '-1'"),
        (Kind::I8, "-129", "number too small to fit in target type while parsing value '-129'"),
        (Kind::I32, "", "cannot parse integer from empty string while parsing value ''"),
        (
            Kind::Bool,
            "yes",
            "provided string was not `true` or `false` while parsing value 'yes'",
        ),
    ];
    for (kind, input, message) in cases {
        let cell = EnvVarValue::new(String::from(input));
        assert_eq!(cell.deserialize(&kind), Err(Error::Custom(String::from(message))));
    }
}

#[test]
fn lines_without_equals_are_skipped() {
    let fields = vec![Field::new("a", Kind::Str), Field::new("b", Kind::Str)];
    let r = from_str("a=1=2\r\nnothing here\r\n\r\nb= 'x' \n", &fields).unwrap();
    assert_eq!(r, vec![text("1=2"), text("x")]);
}

#[test]
fn custom_trimmer_strips_its_characters() {
    let fields = vec![Field::new("key", Kind::Str)];
    let trimmer = |c: char| c == ';' || c == ' ';
    let r = from_iter_with_trimmer(vec![pair("key", "value   ;")], trimmer, &fields).unwrap();
    assert_eq!(r, vec![text("value")]);
    let vars = vec![(b"key".to_vec(), b"value. ..".to_vec())];
    let r = from_os_env_with_trimmer(vars, |c: char| c == ' ' || c == '.', &fields).unwrap();
    assert_eq!(r, vec![text("value")]);
}

#[test]
fn custom_trimmer_trims_sequence_items() {
    let fields = vec![
        Field::new("list", Kind::Sequence(Box::new(Kind::Str))),
        Field::new("blank", Kind::Sequence(Box::new(Kind::Str))),
    ];
    let trimmer = |c: char| c == ';' || c == '.';
    let pairs = vec![pair("list", "a;,;b.,.c"), pair("blank", ";.;")];
    let r = from_iter_with_trimmer(pairs, trimmer, &fields).unwrap();
    assert_eq!(
        r,
        vec![
            Value::Sequence(vec![text("a"), text("b"), text("c")]),
            Value::Sequence(vec![]),
        ]
    );
    let cells = EnvVarValue::new(String::from(" x ,'y'")).deserialize_seq_with(&trimmer);
    let texts: Vec<String> = cells.into_iter().map(|c| c.0).collect();
    assert_eq!(texts, vec![" x ", "'y'"]);
}

#[test]
fn error_messages() {
    assert_eq!(Error::Custom(String::from("boom")).message(), "boom");
    assert_eq!(
        Error::MissingValue(String::from("port")).message(),
        "missing value for port"
    );
    assert_eq!(
        Error::InvalidUnicode(vec![0x61, 0xff]).message(),
        "invalid unicode found in string: a\u{FFFD}"
    );
}
