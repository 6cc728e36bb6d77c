use delta::{DecodeError, Delta, JsonValue, Op, OpContent};

const D1: &str = r#"{
  "ops": [ { "insert": "Hello\n\nLet's write some code!\n" } ]
}"#;

const D2: &str = r#"{
  "ops": [
    {
      "attributes": {
        "bold": true
      },
      "insert": "Hello"
    },
    {
      "insert": "\n\nLet's write some "
    },
    {
      "attributes": {
        "italic": true
      },
      "insert": "code"
    },
    {
      "insert": "!\n"
    }
  ]
}"#;

fn text(s: &str) -> JsonValue {
    JsonValue::String(String::from(s))
}

#[test]
fn deserialize() {
    let d1_delta = Delta::decode(D1).unwrap();
    assert_eq!(d1_delta.ops.len(), 1);
    assert_eq!(
        d1_delta.ops[0],
        Op {
            content: OpContent::Insert(text("Hello\n\nLet's write some code!\n")),
            attributes: Vec::new(),
        },
    );

    let d2_delta = Delta::decode(D2).unwrap();
    let d2_attributes = vec![(String::from("bold"), JsonValue::Bool(true))];
    assert_eq!(d2_delta.ops.len(), 4);
    assert_eq!(
        d2_delta.ops[0],
        Op {
            content: OpContent::Insert(text("Hello")),
            attributes: d2_attributes,
        },
    );
}

#[test]
fn serialize() {
    let d1_delta = Delta::decode(D1).unwrap();
    assert_eq!(
        d1_delta.encode(),
        r#"{"ops":[{"insert":"Hello\n\nLet's write some code!\n"}]}"#
    );
}

#[test]
fn plain_text() {
    let d1_delta = Delta::decode(D1).unwrap();
    assert_eq!(d1_delta.plain_text(), "Hello\n\nLet's write some code!\n");

    // Same text, no formatting.
    let d2_delta = Delta::decode(D2).unwrap();
    assert_eq!(d2_delta.plain_text(), "Hello\n\nLet's write some code!\n");
}

#[test]
fn order_is_kept() {
    let d = Delta::decode(r#"{"ops":[{"insert":"a"},{"insert":"b"}]}"#).unwrap();
    assert_eq!(d.ops.len(), 2);
    assert_eq!(d.ops[0].content, OpContent::Insert(text("a")));
    assert_eq!(d.ops[1].content, OpContent::Insert(text("b")));
    assert_eq!(d.plain_text(), "ab");
}

#[test]
fn absent_attributes_stay_absent() {
    let d = Delta::decode(r#"{"ops":[{"insert":"x"}]}"#).unwrap();
    assert!(d.ops[0].attributes.is_empty());
    let out = d.encode();
    assert_eq!(out, r#"{"ops":[{"insert":"x"}]}"#);
    assert!(!out.contains("attributes"));
}

#[test]
fn attributes_are_read() {
    let d = Delta::decode(r#"{"ops":[{"insert":"Hello","attributes":{"bold":true}}]}"#).unwrap();
    assert_eq!(d.ops.len(), 1);
    assert_eq!(d.ops[0].content, OpContent::Insert(text("Hello")));
    assert_eq!(
        d.ops[0].attributes,
        vec![(String::from("bold"), JsonValue::Bool(true))]
    );
}

#[test]
fn attributes_are_written_with_sorted_keys() {
    let d = Delta::decode(r#"{"ops":[{"insert":"Hi","attributes":{"italic":true,"bold":true}}]}"#)
        .unwrap();
    assert_eq!(
        d.encode(),
        r#"{"ops":[{"attributes":{"bold":true,"italic":true},"insert":"Hi"}]}"#
    );
}

#[test]
fn non_string_insert_adds_no_text() {
    let d = Delta::decode(r#"{"ops":[{"insert":{"image":"x.png"}}]}"#).unwrap();
    assert_eq!(d.ops.len(), 1);
    assert_eq!(
        d.ops[0].content,
        OpContent::Insert(JsonValue::Object(vec![(String::from("image"), text("x.png"))]))
    );
    assert_eq!(d.plain_text(), "");
}

#[test]
fn non_string_inserts_between_strings() {
    let d = Delta::decode(r#"{"ops":[{"insert":"a"},{"insert":1},{"insert":null},{"insert":"b"}]}"#)
        .unwrap();
    assert_eq!(d.ops.len(), 4);
    assert_eq!(d.plain_text(), "ab");
}

#[test]
fn unknown_operation_is_rejected() {
    assert_eq!(
        Delta::decode(r#"{"ops":[{"foo":"bar"}]}"#),
        Err(DecodeError::UnknownOperation(0))
    );
}

#[test]
fn scenario_single_insert() {
    let d = Delta::decode(r#"{"ops":[{"insert":"Hello\n\nLet's write some code!\n"}]}"#).unwrap();
    assert_eq!(d.ops.len(), 1);
    assert!(d.ops[0].attributes.is_empty());
    assert_eq!(d.plain_text(), "Hello\n\nLet's write some code!\n");
    assert_eq!(
        d.encode(),
        r#"{"ops":[{"insert":"Hello\n\nLet's write some code!\n"}]}"#
    );
}

#[test]
fn scenario_formatted_inserts() {
    let d = Delta::decode(D2).unwrap();
    assert_eq!(d.ops.len(), 4);
    assert_eq!(d.ops[0].content, OpContent::Insert(text("Hello")));
    assert_eq!(d.ops[1].content, OpContent::Insert(text("\n\nLet's write some ")));
    assert_eq!(d.ops[2].content, OpContent::Insert(text("code")));
    assert_eq!(
        d.ops[2].attributes,
        vec![(String::from("italic"), JsonValue::Bool(true))]
    );
    assert_eq!(d.ops[3].content, OpContent::Insert(text("!\n")));
    assert!(d.ops[3].attributes.is_empty());
    assert_eq!(d.plain_text(), "Hello\n\nLet's write some code!\n");
}

#[test]
fn round_trip_through_text() {
    let inputs = [
        D1,
        D2,
        r#"{"ops":[{"insert":{"image":"x.png"},"attributes":{"width":12,"alt":null}}]}"#,
        r#"{"ops":[]}"#,
    ];
    for input in inputs {
        let d = Delta::decode(input).unwrap();
        let again = Delta::decode(&d.encode()).unwrap();
        assert_eq!(again, d);
    }
}

#[test]
fn round_trip_through_tree() {
    let d = Delta::decode(D2).unwrap();
    assert_eq!(Delta::from_value(&d.to_value()), Ok(d));
}

#[test]
fn empty_document() {
    let d = Delta::decode(r#"{"ops":[]}"#).unwrap();
    assert!(d.ops.is_empty());
    assert_eq!(d.plain_text(), "");
    assert_eq!(d.encode(), r#"{"ops":[]}"#);
}

#[test]
fn other_top_level_fields_are_not_read() {
    let d = Delta::decode(r#"{"ops":[{"insert":"a"}],"version":2}"#).unwrap();
    assert_eq!(d.ops.len(), 1);
    assert_eq!(d.encode(), r#"{"ops":[{"insert":"a"}]}"#);
}

#[test]
fn syntax_error() {
    assert_eq!(Delta::decode("{\"ops\": ["), Err(DecodeError::Syntax));
    assert_eq!(Delta::decode("not json"), Err(DecodeError::Syntax));
}

#[test]
fn missing_ops() {
    assert_eq!(Delta::decode("{}"), Err(DecodeError::MissingField(None)));
}

#[test]
fn missing_payload() {
    assert_eq!(
        Delta::decode(r#"{"ops":[{"insert":"a"},{"attributes":{"bold":true}}]}"#),
        Err(DecodeError::MissingField(Some(1)))
    );
    assert_eq!(
        Delta::decode(r#"{"ops":[{}]}"#),
        Err(DecodeError::MissingField(Some(0)))
    );
}

#[test]
fn unexpected_field() {
    assert_eq!(
        Delta::decode(r#"{"ops":[{"insert":"a","bold":true}]}"#),
        Err(DecodeError::UnexpectedField(0))
    );
}

#[test]
fn type_mismatch() {
    assert_eq!(Delta::decode("[]"), Err(DecodeError::TypeMismatch(None)));
    assert_eq!(
        Delta::decode(r#"{"ops":{"insert":"a"}}"#),
        Err(DecodeError::TypeMismatch(None))
    );
    assert_eq!(
        Delta::decode(r#"{"ops":[{"insert":"a"},"b"]}"#),
        Err(DecodeError::TypeMismatch(Some(1)))
    );
    assert_eq!(
        Delta::decode(r#"{"ops":[{"insert":"a","attributes":true}]}"#),
        Err(DecodeError::TypeMismatch(Some(0)))
    );
}

#[test]
fn first_failing_operation_is_reported() {
    assert_eq!(
        Delta::decode(r#"{"ops":[{"insert":"a"},{"foo":1},{"insert":"b","x":1}]}"#),
        Err(DecodeError::UnknownOperation(1))
    );
}

#[test]
fn tree_is_built_and_copied() {
    let d = Delta::decode(D2).unwrap();
    let v = d.to_value();
    match &v {
        JsonValue::Object(fields) => {
            assert_eq!(fields.len(), 1);
            assert_eq!(fields[0].0, "ops");
            match &fields[0].1 {
                JsonValue::Array(items) => assert_eq!(items.len(), 4),
                other => panic!("ops is not an array: {:?}", other),
            }
        }
        other => panic!("not an object: {:?}", other),
    }
    assert_eq!(v.copy(), v);
}
