use json::{
    parse, replace_escape, utf8_acc_cont_byte, BuildConfig, Error, ErrorKind, JsonArray,
    JsonObject, JsonValue, ToJson, CONT_MASK,
};

fn kind_of<T>(r: Result<T, Error>) -> Option<ErrorKind> {
    match r {
        Ok(_) => None,
        Err(e) => Some(e.kind),
    }
}

#[test]
fn empty_input_is_end_of_input() {
    assert_eq!(kind_of(parse("")), Some(ErrorKind::EndOfInput));
    assert_eq!(kind_of(parse("   ")), Some(ErrorKind::EndOfInput));
    assert_eq!(kind_of(parse("# only a comment")), Some(ErrorKind::EndOfInput));
    assert_eq!(kind_of(parse("/* closed */ // rest")), Some(ErrorKind::EndOfInput));
}

#[test]
fn object_keeps_insertion_order() {
    let object = JsonObject::create("{\"a\":1,\"b\":2}").unwrap();
    assert_eq!(object.len(), 2);
    assert_eq!(object.to_string(), "{\"a\":1,\"b\":2}");
    let other = JsonObject::create("{\"b\":2,\"a\":1}").unwrap();
    assert_eq!(other.to_string(), "{\"b\":2,\"a\":1}");
}

#[test]
fn repeated_key_keeps_last_value_and_moves_last() {
    let object = JsonObject::create("{\"a\":1,\"b\":2,\"a\":3}").unwrap();
    assert_eq!(object.len(), 2);
    assert_eq!(object.to_string(), "{\"b\":2,\"a\":3}");
}

#[test]
fn omitted_array_element_is_null() {
    let array = JsonArray::create("[1,,3]").unwrap();
    assert_eq!(array.len(), 3);
    assert!(array.is_null(1));
    assert!(!array.is_null(0));
    assert!(!array.is_null(3));
    assert_eq!(array.to_string(), "[1,null,3]");
    assert_eq!(JsonArray::create("[,]").unwrap().to_string(), "[null,null]");
    assert_eq!(JsonArray::create("[1,]").unwrap().to_string(), "[1,null]");
}

#[test]
fn integer_radices() {
    assert!(matches!(parse("0x1A"), Ok(JsonValue::Uint(26))));
    assert!(matches!(parse("0X1a"), Ok(JsonValue::Uint(26))));
    assert!(matches!(parse("010"), Ok(JsonValue::Uint(8))));
    assert!(matches!(parse("-5"), Ok(JsonValue::Int(-5))));
    assert!(matches!(parse("0"), Ok(JsonValue::Uint(0))));
    assert!(matches!(parse("+7"), Ok(JsonValue::Uint(7))));
    assert!(matches!(parse("-0"), Ok(JsonValue::Int(0))));
    assert!(matches!(
        parse("340282366920938463463374607431768211455"),
        Ok(JsonValue::Uint(u128::MAX))
    ));
    assert!(matches!(
        parse("-170141183460469231731687303715884105728"),
        Ok(JsonValue::Int(i128::MIN))
    ));
    assert_eq!(
        kind_of(parse("340282366920938463463374607431768211456")),
        Some(ErrorKind::NumberParseError)
    );
    assert_eq!(kind_of(parse("08")), Some(ErrorKind::NumberParseError));
    assert_eq!(kind_of(parse("0x")), Some(ErrorKind::NumberParseError));
    assert_eq!(kind_of(parse("12ab")), Some(ErrorKind::NumberParseError));
    assert_eq!(kind_of(parse("-")), Some(ErrorKind::NumberParseError));
    assert_eq!(kind_of(parse("\u{e9}")), Some(ErrorKind::NumberParseError));
}

#[test]
fn keywords_in_any_case() {
    assert!(matches!(parse("null"), Ok(JsonValue::Null)));
    assert!(matches!(parse("NULL"), Ok(JsonValue::Null)));
    assert!(matches!(parse("True"), Ok(JsonValue::Bool(true))));
    assert!(matches!(parse("fAlSe"), Ok(JsonValue::Bool(false))));
}

#[test]
fn float_literals_keep_their_text() {
    assert!(matches!(parse("1.50"), Ok(JsonValue::Float(ref t)) if t == "1.50"));
    assert!(matches!(parse("-.5e-3"), Ok(JsonValue::Float(ref t)) if t == "-.5e-3"));
    assert!(matches!(parse("1."), Ok(JsonValue::Float(ref t)) if t == "1."));
    assert_eq!(kind_of(parse(".")), Some(ErrorKind::NumberParseError));
    assert_eq!(kind_of(parse("1.5.0")), Some(ErrorKind::NumberParseError));
    assert_eq!(kind_of(parse("1.5e")), Some(ErrorKind::NumberParseError));
    assert_eq!(kind_of(parse("0x1.8")), Some(ErrorKind::NumberParseError));
    for text in ["1.50", "-.5e-3", "1.", "+3.25E+4"] {
        assert!(text.parse::<f64>().is_ok());
    }
    for text in [".", "1.5.0", "1.5e", "0x1.8"] {
        assert!(text.parse::<f64>().is_err());
    }
}

#[test]
fn surrogate_pair_is_one_character() {
    let value = parse("\"\\uD83D\\uDE01\"").unwrap();
    assert_eq!(value.as_str().unwrap(), "\u{1F601}");
    assert_eq!(value.as_str().unwrap().chars().count(), 1);
    assert_eq!(parse("\"\\u0041\\u00e9\"").unwrap().as_str().unwrap(), "A\u{e9}");
    assert_eq!(parse("\"\\uFFFD\\uE000\"").unwrap().as_str().unwrap(), "\u{fffd}\u{e000}");
    assert_eq!(parse("\"\\uDBFF\\uDFFF\"").unwrap().as_str().unwrap(), "\u{10ffff}");
    assert_eq!(parse("\"\\u+041\"").unwrap().as_str().unwrap(), "A");
}

#[test]
fn escape_failures() {
    assert_eq!(kind_of(parse("\"\\uD83Dx\"")), Some(ErrorKind::SyntaxError));
    assert_eq!(kind_of(parse("\"\\uD83D")), Some(ErrorKind::SyntaxError));
    assert_eq!(kind_of(parse("\"\\u12")), Some(ErrorKind::EndOfInput));
    assert_eq!(kind_of(parse("\"\\uD83D\\u12")), Some(ErrorKind::EndOfInput));
    assert_eq!(kind_of(parse("\"\\u12G4\"")), Some(ErrorKind::NumberParseError));
    assert_eq!(kind_of(parse("\"\\uDC00\"")), Some(ErrorKind::CastError));
    assert_eq!(kind_of(parse("\"\\uD83D\\u0041\"")), Some(ErrorKind::CastError));
    assert_eq!(kind_of(parse("\"\\x\"")), Some(ErrorKind::SyntaxError));
    assert_eq!(kind_of(parse("\"\\")), Some(ErrorKind::EndOfInput));
}

#[test]
fn malformed_inputs() {
    assert_eq!(kind_of(parse("\"never closed")), Some(ErrorKind::EndOfInput));
    assert_eq!(kind_of(parse("/* never closed")), Some(ErrorKind::SyntaxError));
    assert_eq!(kind_of(parse("{1:2}")), Some(ErrorKind::SyntaxError));
    assert_eq!(kind_of(parse("{\"a\" 1}")), Some(ErrorKind::SyntaxError));
    assert_eq!(kind_of(parse("{\"a\":1 \"b\":2}")), Some(ErrorKind::SyntaxError));
    assert_eq!(kind_of(parse("[1 2]")), Some(ErrorKind::SyntaxError));
    assert_eq!(kind_of(parse("[1,")), Some(ErrorKind::EndOfInput));
    assert_eq!(kind_of(parse("{\"a\":")), Some(ErrorKind::EndOfInput));
    assert_eq!(kind_of(parse("\"a\nb\"")), Some(ErrorKind::SyntaxError));
    assert_eq!(kind_of(parse("}")), Some(ErrorKind::SyntaxError));
}

#[test]
fn trailing_content_is_ignored() {
    assert!(matches!(parse("1 2 3"), Ok(JsonValue::Uint(1))));
    assert!(matches!(parse("null}"), Ok(JsonValue::Null)));
}

#[test]
fn create_wants_the_right_container() {
    assert_eq!(kind_of(JsonObject::create("[1]")), Some(ErrorKind::TypeMismatch));
    assert_eq!(kind_of(JsonArray::create("{}")), Some(ErrorKind::TypeMismatch));
    assert_eq!(kind_of(JsonArray::create("[")), Some(ErrorKind::EndOfInput));
}

#[test]
fn accumulate_on_fresh_key_inserts() {
    let mut object = JsonObject::new();
    object.accumulate("k".to_string(), 1_u8);
    assert_eq!(object.to_string(), "{\"k\":1}");
}

#[test]
fn accumulate_on_plain_value_makes_a_pair() {
    let mut object = JsonObject::new();
    object.insert("k", 1_u8);
    object.insert("z", 0_u8);
    object.accumulate("k".to_string(), "two");
    assert_eq!(object.to_string(), "{\"z\":0,\"k\":[1,\"two\"]}");
}

#[test]
fn accumulate_on_array_appends() {
    let mut object = JsonObject::create("{\"k\":[1,2]}").unwrap();
    object.accumulate("k".to_string(), 3_u8);
    assert_eq!(object.to_string(), "{\"k\":[1,2,3]}");
    object.accumulate_value("k".to_string(), JsonValue::Null);
    assert_eq!(object.to_string(), "{\"k\":[1,2,3,null]}");
}

#[test]
fn object_get_remove_and_null() {
    let mut object = JsonObject::create("{\"a\":null,\"b\":2,\"c\":\"x\"}").unwrap();
    assert!(object.is_null("a"));
    assert!(!object.is_null("b"));
    assert!(!object.is_null("missing"));
    assert!(object.get("missing").is_none());
    assert_eq!(object.get("b").unwrap().as_u8().unwrap(), 2);
    let removed = object.remove("b").unwrap();
    assert_eq!(removed.as_u8().unwrap(), 2);
    assert!(object.remove("b").is_none());
    assert_eq!(object.len(), 2);
    assert!(!object.is_empty());
    assert_eq!(object.to_string(), "{\"a\":null,\"c\":\"x\"}");
    *object.get_mut("a").unwrap() = JsonValue::Bool(true);
    assert!(object.get_mut("b").is_none());
    assert_eq!(object.to_string(), "{\"a\":true,\"c\":\"x\"}");
    assert!(JsonObject::new().is_empty());
    assert_eq!(JsonObject::new().len(), 0);
}

#[test]
fn object_clone_is_a_copy() {
    let mut object = JsonObject::create("{\"a\":[1,{\"b\":2}]}").unwrap();
    let copy = object.clone();
    object.insert("c", 3_u8);
    assert_eq!(copy.to_string(), "{\"a\":[1,{\"b\":2}]}");
    assert_eq!(object.to_string(), "{\"a\":[1,{\"b\":2}],\"c\":3}");
    let value = JsonValue::Object(copy);
    assert_eq!(value.clone().to_string(), value.to_string());
}

#[test]
fn array_mutation() {
    let mut array = JsonArray::new();
    assert!(array.is_empty());
    array.push(1_u8);
    array.push("three");
    array.insert(2_u8, 1);
    assert_eq!(array.to_string(), "[1,2,\"three\"]");
    array.insert(JsonValue::Null, 3);
    assert_eq!(array.len(), 4);
    assert!(array.is_null(3));
    *array.get_mut(0).unwrap() = JsonValue::Bool(false);
    assert!(array.get_mut(4).is_none());
    assert_eq!(array.remove(1).unwrap().as_u8().unwrap(), 2);
    assert!(array.remove(7).is_none());
    assert_eq!(array.to_string(), "[false,\"three\",null]");
    assert!(array.get(3).is_none());
    assert_eq!(array.clone().to_string(), "[false,\"three\",null]");
}

#[test]
fn coercion_to_unsigned() {
    assert_eq!(kind_of(JsonValue::Int(-1).as_u8()), Some(ErrorKind::TypeMismatch));
    assert_eq!(JsonValue::Uint(300).as_u8().unwrap(), 44);
    assert_eq!(JsonValue::Int(300).as_u8().unwrap(), 44);
    assert_eq!(JsonValue::Int(0).as_u8().unwrap(), 0);
    assert_eq!(JsonValue::Uint(65536 + 7).as_u16().unwrap(), 7);
    assert_eq!(JsonValue::Uint(u128::MAX).as_u32().unwrap(), u32::MAX);
    assert_eq!(JsonValue::Uint(u128::MAX).as_u64().unwrap(), u64::MAX);
    assert_eq!(JsonValue::Uint(5).as_u128().unwrap(), 5);
    assert_eq!(kind_of(JsonValue::Int(-1).as_u128()), Some(ErrorKind::TypeMismatch));
    assert_eq!(kind_of(JsonValue::Null.as_u8()), Some(ErrorKind::ValueIsNull));
    assert_eq!(kind_of(JsonValue::Bool(true).as_u8()), Some(ErrorKind::TypeMismatch));
    assert_eq!(JsonValue::Int(-1).opt_u8(), None);
    assert_eq!(JsonValue::Uint(300).opt_u8(), Some(44));
}

#[test]
fn coercion_to_signed() {
    assert_eq!(JsonValue::Uint(255).as_i8().unwrap(), -1);
    assert_eq!(JsonValue::Int(-129).as_i8().unwrap(), 127);
    assert_eq!(JsonValue::Int(-5).as_i16().unwrap(), -5);
    assert_eq!(JsonValue::Uint(u128::MAX).as_i32().unwrap(), -1);
    assert_eq!(JsonValue::Int(i128::MIN).as_i64().unwrap(), 0);
    assert_eq!(JsonValue::Uint(u128::MAX).as_i128().unwrap(), -1);
    assert_eq!(kind_of(JsonValue::Null.as_i64()), Some(ErrorKind::ValueIsNull));
    assert_eq!(
        kind_of(JsonValue::String("1".to_string()).as_i64()),
        Some(ErrorKind::TypeMismatch)
    );
    assert_eq!(JsonValue::Int(-5).opt_i16(), Some(-5));
    assert_eq!(JsonValue::Null.opt_i128(), None);
}

#[test]
fn coercion_to_bool() {
    assert!(JsonValue::Bool(true).as_bool().unwrap());
    assert!(JsonValue::String("TRUE".to_string()).as_bool().unwrap());
    assert!(!JsonValue::String("False".to_string()).as_bool().unwrap());
    assert_eq!(
        kind_of(JsonValue::String("yes".to_string()).as_bool()),
        Some(ErrorKind::TypeMismatch)
    );
    assert_eq!(kind_of(JsonValue::Uint(1).as_bool()), Some(ErrorKind::TypeMismatch));
    assert_eq!(kind_of(JsonValue::Null.as_bool()), Some(ErrorKind::ValueIsNull));
    assert_eq!(JsonValue::Null.opt_bool(), None);
    assert_eq!(JsonValue::Bool(false).opt_bool(), Some(false));
}

#[test]
fn container_and_text_access() {
    let mut value = parse("{\"a\":[1]}").unwrap();
    assert!(value.as_object_ref().is_ok());
    assert_eq!(kind_of(value.as_array_ref()), Some(ErrorKind::TypeMismatch));
    assert_eq!(kind_of(value.as_str()), Some(ErrorKind::TypeMismatch));
    assert!(value.opt_object_ref().is_some());
    assert!(value.opt_array_ref().is_none());
    value.as_object_mut_ref().unwrap().insert("b", 2_u8);
    value.opt_object_mut_ref().unwrap().insert("c", 3_u8);
    assert!(value.as_array_mut_ref().is_err());
    assert!(value.opt_array_mut_ref().is_none());
    assert_eq!(value.to_string(), "{\"a\":[1],\"b\":2,\"c\":3}");
    assert!(value.clone().opt_object().is_some());
    assert!(value.clone().opt_array().is_none());
    assert!(value.as_array().is_err());

    let mut text = JsonValue::from("abc");
    text.as_mut_str().unwrap().make_ascii_uppercase();
    assert_eq!(text.as_str().unwrap(), "ABC");
    text.opt_mut_str().unwrap().make_ascii_lowercase();
    assert_eq!(text.opt_str(), Some("abc"));
    assert_eq!(text.clone().opt_string(), Some("abc".to_string()));
    assert_eq!(kind_of(JsonValue::Null.as_string()), Some(ErrorKind::ValueIsNull));
    assert!(JsonValue::Null.is_null());

    let mut list = parse("[1]").unwrap();
    list.as_array_mut_ref().unwrap().push(2_u8);
    list.opt_array_mut_ref().unwrap().push(3_u8);
    assert_eq!(list.to_string(), "[1,2,3]");
    assert_eq!(list.as_array_ref().unwrap().len(), 3);
}

#[test]
fn conversion_from_native() {
    assert!(matches!(JsonValue::from(5_i32), JsonValue::Uint(5)));
    assert!(matches!(JsonValue::from(0_i64), JsonValue::Uint(0)));
    assert!(matches!(JsonValue::from(-5_i8), JsonValue::Int(-5)));
    assert!(matches!(JsonValue::from(i128::MIN), JsonValue::Int(i128::MIN)));
    assert!(matches!(JsonValue::from(7_u64), JsonValue::Uint(7)));
    assert!(matches!(JsonValue::from(true), JsonValue::Bool(true)));
    assert!(matches!(JsonValue::from("x".to_string()), JsonValue::String(ref s) if s == "x"));
    assert!(matches!(JsonValue::from(JsonArray::new()), JsonValue::Array(_)));
    assert!(matches!(JsonValue::from(JsonObject::new()), JsonValue::Object(_)));
}

#[test]
fn escape_text() {
    assert_eq!(
        replace_escape("a\\b\"c\x0Cd\te\nf\x08g\rh\u{e9}\u{1F601}'/"),
        "a\\\\b\\\"c\\fd\\te\\nf\\bg\\rh\u{e9}\u{1F601}'/"
    );
    assert_eq!(replace_escape(""), "");
}

#[test]
fn continuation_byte_arithmetic() {
    assert_eq!(CONT_MASK, 0x3F);
    assert_eq!(utf8_acc_cont_byte(0x03, 0xA9), 0xE9);
    assert_eq!(utf8_acc_cont_byte(0, 0xBF), 0x3F);
}

#[test]
fn compact_rendering() {
    let value = parse("{ 'a' => [1, -2, 3.5, \"x\\ny\", null, true, false], b = {} ; c : [] }");
    assert_eq!(kind_of(parse("{ b = {} }")), Some(ErrorKind::NumberParseError));
    assert!(value.is_err());
    let value = parse("{ 'a' => [1, -2, 3.5, \"x\\ny\", null, true, false], 'b' = {} ; 'c' : [] }")
        .unwrap();
    assert_eq!(
        value.to_string(),
        "{\"a\":[1,-2,3.5,\"x\\ny\",null,true,false],\"b\":{},\"c\":[]}"
    );
    assert_eq!(value.to_json(&BuildConfig::default()), value.to_string());
    assert_eq!(JsonValue::Uint(u128::MAX).to_string(), "340282366920938463463374607431768211455");
    assert_eq!(JsonValue::Int(i128::MIN).to_string(), "-170141183460469231731687303715884105728");
    assert_eq!(JsonValue::Uint(0).to_string(), "0");
    assert_eq!(JsonValue::Int(-10).to_string(), "-10");
}

#[test]
fn pretty_rendering() {
    let value = parse("{\"a\":[1,{\"b\":null}],\"c\":\"d\"}").unwrap();
    assert_eq!(
        value.pretty(),
        "{\n| \"a\": [\n| | 1,\n| | {\n| | | \"b\": null\n| | }\n| ],\n| \"c\": \"d\"\n}"
    );
    assert_eq!(
        value.to_json(&BuildConfig::new(true, "  ", false, false)),
        "{\n  \"a\": [\n    1,\n    {\n      \"b\": null\n    }\n  ],\n  \"c\": \"d\"\n}"
    );
    assert_eq!(parse("[]").unwrap().pretty(), "[\n]");
    assert_eq!(JsonObject::new().pretty(), "{\n}");
    assert_eq!(JsonArray::create("[[]]").unwrap().pretty(), "[\n| [\n| ]\n]");
    assert_eq!(JsonValue::Null.pretty(), "null");
}

#[test]
fn colored_rendering_holds_the_plain_pieces() {
    let value = parse("{\"key\":[1,\"text\",null]}").unwrap();
    let plain = value.to_json(&BuildConfig::new(true, " ", false, false));
    let colored = value.to_json(&BuildConfig::new(true, " ", false, true));
    assert!(colored.len() >= plain.len());
    for piece in ["key", "1", "text", "null", "\n  "] {
        assert!(colored.contains(piece));
    }
}

#[test]
fn round_trip_compact() {
    for text in [
        "null",
        "true",
        "[1,-2,\"a\\\"b\\\\c\\n\",[],{}]",
        "{\"k\":{\"n\":[null,false]},\"\u{e9}\u{1F601}\":\"\\t\"}",
        "1.5",
    ] {
        let value = parse(text).unwrap();
        assert_eq!(value.to_string(), text);
        assert_eq!(parse(&value.to_string()).unwrap().to_string(), text);
    }
}

#[test]
fn pretty_rendering_is_idempotent() {
    let value = parse("{\"a\":[1,{\"b\":[]}],\"c\":\"x y\"}").unwrap();
    let cfg = BuildConfig::new(true, "  ", false, false);
    let once = value.to_json(&cfg);
    let twice = parse(&once).unwrap().to_json(&cfg);
    assert_eq!(once, twice);
}

#[test]
fn pretty_text_with_visible_indent_is_no_json() {
    let value = parse("{\"a\":1}").unwrap();
    assert_eq!(value.pretty(), "{\n| \"a\": 1\n}");
    assert_eq!(kind_of(parse(&value.pretty())), Some(ErrorKind::NumberParseError));
}

#[test]
fn error_text() {
    let error = Error::new(ErrorKind::SyntaxError, "error escape");
    assert_eq!(error.to_string(), "SyntaxError:error escape");
    assert_eq!(ErrorKind::EndOfInput.name(), "EndOfInput");
    assert_eq!(Error::new(ErrorKind::NotFound, "no such key").to_string(), "NotFound:no such key");
    assert_eq!(parse("/*").unwrap_err().msg, "can't found comment end of C style(*/)");
}

#[test]
fn optional_access() {
    let number = JsonValue::Uint(0x1_0000_0001);
    assert_eq!(number.opt_i8(), Some(1));
    assert_eq!(number.opt_i32(), Some(1));
    assert_eq!(number.opt_i64(), Some(0x1_0000_0001));
    assert_eq!(number.opt_u16(), Some(1));
    assert_eq!(number.opt_u32(), Some(1));
    assert_eq!(number.opt_u64(), Some(0x1_0000_0001));
    assert_eq!(number.opt_u128(), Some(0x1_0000_0001));
    let text = JsonValue::from("x");
    assert_eq!(text.opt_i8(), None);
    assert_eq!(text.opt_i32(), None);
    assert_eq!(text.opt_i64(), None);
    assert_eq!(text.opt_u16(), None);
    assert_eq!(text.opt_u32(), None);
    assert_eq!(text.opt_u64(), None);
    assert_eq!(JsonValue::Int(-1).opt_u128(), None);
}

#[test]
fn what_was_parsed_renders_and_parses_again() {
    for text in [
        "-0",
        "{'a':1,'a':[2,,], \"b\" => {\"c\" = -1.50e+3}}",
        "[0x10, 010, +7, TRUE, Null, 'it\\'s']",
        "/* c */ [ # x\n 1 ; 2 ] trailing",
        "\"\\u00e9\\uD83D\\uDE01\\t\"",
    ] {
        let value = parse(text).unwrap();
        let compact = value.to_string();
        let again = parse(&compact).unwrap();
        assert_eq!(again.to_string(), compact);
        let cfg = BuildConfig::new(true, "\t", false, false);
        let pretty = value.to_json(&cfg);
        assert_eq!(parse(&pretty).unwrap().to_json(&cfg), pretty);
        assert_eq!(parse(&pretty).unwrap().to_string(), compact);
    }
    assert!(matches!(parse("-0"), Ok(JsonValue::Int(0))));
    assert!(matches!(parse("0"), Ok(JsonValue::Uint(0))));
    assert_eq!(JsonValue::Int(5).to_string(), "5");
    assert!(matches!(parse(&JsonValue::Int(5).to_string()), Ok(JsonValue::Uint(5))));
}

#[test]
fn error_from_number_failures() {
    let no_integer = "x".parse::<u8>().unwrap_err();
    let error = Error::from(no_integer);
    assert_eq!(error.kind, ErrorKind::NumberParseError);
    assert_eq!(error.msg, "parse to int error");
    let no_number = "x".parse::<f64>().unwrap_err();
    let error = Error::from(no_number);
    assert_eq!(error.kind, ErrorKind::NumberParseError);
    assert_eq!(error.msg, "parse to float error");
}
