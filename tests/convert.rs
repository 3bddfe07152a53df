use renvar::{from_env, from_str, Field, Kind, Value};

fn test_shape() -> Vec<Field> {
    vec![
        Field::new("string_field", Kind::Str),
        Field::new("empty_string_field", Kind::Str),
        Field::new("sequence", Kind::Sequence(Box::new(Kind::Str))),
        Field::new("empty_sequence_doublequote", Kind::Sequence(Box::new(Kind::Str))),
        Field::new("empty_sequence_singlequote", Kind::Sequence(Box::new(Kind::Str))),
        Field::new("empty_sequence_whitespace", Kind::Sequence(Box::new(Kind::Str))),
        Field::new("unit", Kind::UnitStruct("Unit")),
        Field::new("newtype", Kind::Newtype(Box::new(Kind::U64))),
        Field::new("optional_field", Kind::Optional(Box::new(Kind::Str))),
        Field::new("enumeration", Kind::Enumeration(&["A", "B", "C"])),
    ]
}

fn expected() -> Vec<Value> {
    vec![
        Value::Str(String::from("hello")),
        Value::Str(String::from("")),
        Value::Sequence(vec![
            Value::Str(String::from("first")),
            Value::Str(String::from("second")),
            Value::Str(String::from("third")),
        ]),
        Value::Sequence(vec![]),
        Value::Sequence(vec![]),
        Value::Sequence(vec![]),
        Value::Unit,
        Value::Newtype(Box::new(Value::U64(123))),
        Value::Absent,
        Value::Variant(0),
    ]
}

#[test]
fn test_from_str() {
    let input_str = r#"
        string_field=hello
        empty_string_field=
        sequence=first,second,third
        empty_sequence_doublequote=""
        empty_sequence_singlequote=''
        empty_sequence_whitespace=" "
        unit=Unit
        newtype=123
        optional_field=
        enumeration=A
        "#;

    let actual = from_str(input_str, &test_shape()).unwrap();

    assert_eq!(actual, expected());
}

#[test]
fn test_from_str_with_extra_quotes() {
    let input_str = r#"
        string_field="hello"
        empty_string_field=
        sequence="first,second,third"
        empty_sequence_doublequote=""
        empty_sequence_singlequote=''
        empty_sequence_whitespace=" "
        unit=Unit
        newtype=123
        optional_field=
        enumeration=A
        "#;

    let actual = from_str(input_str, &test_shape()).unwrap();

    assert_eq!(actual, expected());
}

#[test]
fn test_from_env() {
    let input_str = r#"
        string_field=hello
        empty_string_field=""
        sequence=first,second,third
        empty_sequence_doublequote=""
        empty_sequence_singlequote=''
        empty_sequence_whitespace=" "
        unit=Unit
        newtype=123
        optional_field=""
        enumeration=A
        "#;

    let mut vars = Vec::new();
    for line in input_str.lines().map(|l| l.trim()).filter(|l| !l.is_empty()) {
        let (key, value) = line.split_once('=').unwrap();
        vars.push((String::from(key), String::from(value)));
    }

    let actual = from_env(vars, &test_shape()).unwrap();

    assert_eq!(actual, expected());
}
