use renvar::{from_iter, from_str, EnvVarDeserializer, Field, Kind, Value};

#[test]
fn de_test_from_iter() {
    let fields = vec![
        Field::new("string_field", Kind::Str),
        Field::new("empty_string_field", Kind::Str),
        Field::new("sequence", Kind::Sequence(Box::new(Kind::Str))),
        Field::new("empty_sequence_doublequote", Kind::Sequence(Box::new(Kind::Str))),
        Field::new("empty_sequence_singlequote", Kind::Sequence(Box::new(Kind::Str))),
        Field::new("empty_sequence_whitespace", Kind::Sequence(Box::new(Kind::Str))),
        Field::new("unit", Kind::UnitStruct("Unit")),
        Field::new("newtype", Kind::Newtype(Box::new(Kind::U64))),
        Field::new("optional_field", Kind::Optional(Box::new(Kind::Str))),
    ];
    let iter = vec![
        (String::from("string_field"), String::from("hello")),
        (String::from("empty_string_field"), String::from("")),
        (String::from("sequence"), String::from("first,second,third")),
        (String::from("empty_sequence_doublequote"), String::from("\"\"")),
        (String::from("empty_sequence_singlequote"), String::from("\'\'")),
        (String::from("empty_sequence_whitespace"), String::from(" ")),
        (String::from("unit"), String::from("Unit")),
        (String::from("newtype"), String::from("62875")),
        (String::from("optional_field"), String::from("")),
    ];

    let test_struct = from_iter(iter, &fields).unwrap();

    assert_eq!(
        test_struct,
        vec![
            Value::Str(String::from("hello")),
            Value::Str(String::from("")),
            Value::Sequence(vec![
                Value::Str(String::from("first")),
                Value::Str(String::from("second")),
                Value::Str(String::from("third")),
            ]),
            Value::Sequence(vec![]),
            Value::Sequence(vec![]),
            Value::Sequence(vec![]),
            Value::Unit,
            Value::Newtype(Box::new(Value::U64(62875))),
            Value::Absent,
        ]
    );
}

#[test]
fn env_test_from_iter() {
    let fields = vec![
        Field::new("string_field", Kind::Str),
        Field::new("sequence", Kind::Sequence(Box::new(Kind::Str))),
    ];
    let expected = vec![
        Value::Str(String::from("hello")),
        Value::Sequence(vec![
            Value::Str(String::from("first")),
            Value::Str(String::from("second")),
            Value::Str(String::from("third")),
        ]),
    ];

    let iter = vec![
        (String::from("string_field"), String::from("hello")),
        (String::from("sequence"), String::from("first,second,third")),
    ];
    let test_struct = EnvVarDeserializer::new(iter).deserialize(&fields).unwrap();
    assert_eq!(test_struct, expected);

    let input_str = "string_field=hello\nsequence=first,second,third";
    let test_struct = from_str(input_str, &fields).unwrap();
    assert_eq!(test_struct, expected);
}
