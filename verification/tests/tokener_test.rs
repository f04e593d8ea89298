use json::{index_of_all, index_of_any, JsonTokener, JsonValue};

#[test]
fn test_index_any() {
    let list = vec!['a', '\r', '\n', 'f'];
    assert_eq!(index_of_any(&list, &['\r', '\n'], 0), Some(1));
    assert_eq!(index_of_any(&list, &['\r', '\n'], 2), Some(2));
}

#[test]
fn test_index_of_all() {
    let list = vec![1, 2, 3, 4];
    assert_eq!(index_of_all(&list, &[1, 2], 0), Some(0));
    assert_eq!(index_of_all(&list, &[1, 2], 2), None);
    assert_eq!(index_of_all(&list, &[2, 3], 0), Some(1));
    assert_eq!(index_of_all(&list, &[2, 3], 1), Some(1));
    assert_eq!(index_of_all(&list, &[2, 3], 4), None);
    assert_eq!(index_of_all(&list, &[4, 10], 4), None);
    assert_eq!(index_of_all(&list, &[10, 11], 0), None);
}

#[test]
fn tokener_bom() {
    let str = "\u{feff}\"string\"";
    let json = JsonTokener::new(str).next_value();
    assert!(json.is_ok());
    let json = json.unwrap();
    assert_eq!(json.as_str().unwrap(), "string");
}

#[test]
#[should_panic(expected = "can't found comment end of C style(*/)")]
fn tokener_comemnt_error() {
    let str = "/*";
    JsonTokener::new(str).next_value().unwrap();
}

#[test]
fn tokener_comment_ok() {
    let str = "//hello\n\"string\"";
    let json = JsonTokener::new(str).next_value().unwrap();
    assert_eq!(json.as_string().unwrap(), "string");

    let str = "#hello\n\"string\"";
    let json = JsonTokener::new(str).next_value().unwrap();
    assert_eq!(json.as_string().unwrap(), "string");

    let str = "/*hello*/\n\"string\"";
    let json = JsonTokener::new(str).next_value().unwrap();
    assert_eq!(json.as_string().unwrap(), "string");
}

#[test]
#[should_panic(expected = "read a literal but get empty")]
fn tokener_comment_error() {
    let str = "/";
    JsonTokener::new(str).next_value().unwrap();
}

#[test]
#[should_panic(expected = "need next char but return EOF")]
fn tokener_comment_error2() {
    let str = "//";
    JsonTokener::new(str).next_value().unwrap();
}

#[test]
fn tokener_separator() {
    let str = "{\"key\":1}";
    assert!(JsonTokener::new(str)
        .next_value()
        .unwrap()
        .as_object()
        .is_ok());

    let str = "{\"key\":>1}";
    assert!(JsonTokener::new(str)
        .next_value()
        .unwrap()
        .as_object()
        .is_ok());

    let str = "{\"key\"=1}";
    assert!(JsonTokener::new(str)
        .next_value()
        .unwrap()
        .as_object()
        .is_ok());

    let str = "{\"key\"=>1}";
    assert!(JsonTokener::new(str)
        .next_value()
        .unwrap()
        .as_object()
        .is_ok());

    let str = "{\"key\":=1}";
    assert!(JsonTokener::new(str).next_value().is_err());

    let str = "{\"key\":1, \"num\": 10; \"count\": 10}";
    assert!(JsonTokener::new(str)
        .next_value()
        .unwrap()
        .as_object()
        .is_ok());
}

#[test]
fn tokener_empty_object() {
    let str = "{}";
    assert!(JsonTokener::new(str)
        .next_value()
        .unwrap()
        .as_object()
        .is_ok())
}

#[test]
#[should_panic = "must has a key for non-empty object"]
fn tokener_json_object_error() {
    let str = "{123}";
    JsonTokener::new(str).next_value().unwrap();
}

#[test]
fn tokener_json_array() {
    let str = "[]";
    let array = JsonTokener::new(str).next_value().unwrap().as_array();
    assert!(array.is_ok());
    assert!(array.unwrap().is_empty());

    let str = "[1, 2, 3]";
    let array = JsonTokener::new(str).next_value().unwrap().as_array();
    assert!(array.is_ok());
    assert_eq!(array.unwrap().len(), 3);

    let str = "[1; 2; 3]";
    let array = JsonTokener::new(str).next_value().unwrap().as_array();
    assert!(array.is_ok());
    assert_eq!(array.unwrap().len(), 3);

    let str = "[, 1; 2; 3, ]";
    let array = JsonTokener::new(str).next_value().unwrap().as_array();
    assert!(array.is_ok());
    assert_eq!(array.unwrap().len(), 5);

    let str = "[1: 2: 3]";
    let array = JsonTokener::new(str).next_value();
    assert!(array.is_err());
}

#[test]
fn tokener_string() {
    let str = "\"\n\"";
    let str = JsonTokener::new(str).next_value();
    assert!(str.is_err());

    let str = "\"\\n\\b\\f\\t\\r\\'\\\"\\\\\\/\\uD83D\\uDE01\"";
    let str = JsonTokener::new(str)
        .next_value()
        .unwrap()
        .as_string()
        .unwrap();
    assert_eq!(str, "\n\x08\x0c\t\r\'\"\\/\u{1F601}");

    let str = "\"hello";
    let str = JsonTokener::new(str).next_value();
    assert!(str.is_err());
}

#[test]
fn tokener_reads_values_one_after_the_other() {
    let mut tokener = JsonTokener::new("1 \"two\" [3]");
    assert_eq!(tokener.next_value().unwrap().as_u8().unwrap(), 1);
    assert_eq!(tokener.next_value().unwrap().as_string().unwrap(), "two");
    assert_eq!(tokener.next_value().unwrap().as_array().unwrap().len(), 1);
    assert!(matches!(tokener.next_value(), Err(e) if e.kind == json::ErrorKind::EndOfInput));
    assert!(matches!(JsonValue::Null, JsonValue::Null));
}
