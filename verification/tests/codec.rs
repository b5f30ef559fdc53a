use darkdb::codec::from_text;
use darkdb::codec::to_text;
use darkdb::collection::Collection;
use darkdb::value::deep_eq;
use darkdb::value::JsonVal;
use darkdb::DbError;

#[test]
fn scalars_serialize_to_their_exact_text() {
    assert_eq!(to_text(&JsonVal::Null), "null");
    assert_eq!(to_text(&JsonVal::Bool(true)), "true");
    assert_eq!(to_text(&JsonVal::Bool(false)), "false");
    assert_eq!(to_text(&JsonVal::Int(0)), "0");
    assert_eq!(to_text(&JsonVal::Int(-42)), "-42");
    assert_eq!(to_text(&JsonVal::Int(i64::MAX)), "9223372036854775807");
    assert_eq!(to_text(&JsonVal::Int(i64::MIN)), "-9223372036854775808");
}

#[test]
fn strings_escape_quotes_and_backslashes() {
    let v = JsonVal::Str("a\"b\\c".to_string());
    assert_eq!(to_text(&v), "\"a\\\"b\\\\c\"");
    assert_eq!(to_text(&JsonVal::Str(String::new())), "\"\"");
}

#[test]
fn containers_serialize_compactly_in_member_order() {
    let v = JsonVal::Obj(vec![
        (
            "a".to_string(),
            JsonVal::Arr(vec![JsonVal::Int(1), JsonVal::Bool(true), JsonVal::Null]),
        ),
        (
            "b".to_string(),
            JsonVal::Obj(vec![("c".to_string(), JsonVal::Str("d".to_string()))]),
        ),
    ]);
    assert_eq!(to_text(&v), "{\"a\":[1,true,null],\"b\":{\"c\":\"d\"}}");
    assert_eq!(to_text(&JsonVal::Arr(vec![])), "[]");
    assert_eq!(to_text(&JsonVal::Obj(vec![])), "{}");
}

#[test]
fn parsing_inverts_serialization() {
    let v = JsonVal::Obj(vec![
        ("s".to_string(), JsonVal::Str("x\\\"y".to_string())),
        (
            "n".to_string(),
            JsonVal::Arr(vec![
                JsonVal::Int(i64::MIN),
                JsonVal::Int(i64::MAX),
                JsonVal::Int(0),
            ]),
        ),
        ("e".to_string(), JsonVal::Obj(vec![])),
    ]);
    let text = to_text(&v);
    let back = from_text(&text).expect("serialized text parses");
    assert!(deep_eq(&v, &back));
}

#[test]
fn parsing_reads_plain_values() {
    let v = from_text("{\"k\":123}").unwrap();
    match v {
        JsonVal::Obj(ms) => {
            assert_eq!(ms.len(), 1);
            assert_eq!(ms[0].0, "k");
            assert!(matches!(ms[0].1, JsonVal::Int(123)));
        }
        _ => panic!("expected an object"),
    }
    assert!(matches!(from_text("-7"), Some(JsonVal::Int(-7))));
    assert!(matches!(from_text("null"), Some(JsonVal::Null)));
}

#[test]
fn malformed_text_is_rejected() {
    assert!(from_text("").is_none());
    assert!(from_text("{").is_none());
    assert!(from_text("[1,]").is_none());
    assert!(from_text("01").is_none());
    assert!(from_text("-0").is_none());
    assert!(from_text("nulll").is_none());
    assert!(from_text("tru").is_none());
    assert!(from_text("\"open").is_none());
    // Twenty digits never fit a 64-bit integer here.
    assert!(from_text("99999999999999999999").is_none());
    assert!(from_text("9223372036854775808").is_none());
    assert!(from_text("-9223372036854775809").is_none());
}

#[test]
fn snapshot_text_that_is_not_a_record_map_is_rejected() {
    let r = Collection::from_snapshot("x".to_string(), "nonsense");
    assert_eq!(r.err().unwrap(), DbError::Serialization);
    let r2 = Collection::from_snapshot("x".to_string(), "[1,2]");
    assert_eq!(r2.err().unwrap(), DbError::Serialization);
    // The key must repeat the record's own identifier.
    let doc = "{\"wrong\":{\"id\":\"id-1\",\"data\":null,\"created_at\":1,\"updated_at\":1,\"expires_at\":null}}";
    let r3 = Collection::from_snapshot("x".to_string(), doc);
    assert_eq!(r3.err().unwrap(), DbError::Serialization);
    // A well-formed single-record snapshot is accepted.
    let good = "{\"id-1\":{\"id\":\"id-1\",\"data\":null,\"created_at\":1,\"updated_at\":1,\"expires_at\":null}}";
    let c = Collection::from_snapshot("x".to_string(), good).unwrap();
    assert!(c.find("id-1").is_some());
}
