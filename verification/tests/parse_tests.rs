use relaxed_json::parse;
use relaxed_json::JsonError;
use relaxed_json::JsonValue;

fn get<'a>(v: &'a JsonValue, key: &str) -> &'a JsonValue {
    v.get_map(&String::from(key)).unwrap().unwrap()
}

#[test]
fn object_with_two_integer_entries() {
    let v = parse("{\"a\":1,\"b\":2}").unwrap();
    assert_eq!(*get(&v, "a"), JsonValue::Int(1));
    assert_eq!(*get(&v, "b"), JsonValue::Int(2));
    match &v {
        JsonValue::Dict(entries) => assert_eq!(entries.len(), 2),
        _ => panic!("expected an object"),
    }
}

#[test]
fn single_quoted_array_elements() {
    let v = parse("['x', 'y']").unwrap();
    let expected = JsonValue::List(vec![
        JsonValue::Text(String::from("x")),
        JsonValue::Text(String::from("y")),
    ]);
    assert_eq!(v, expected);
}

#[test]
fn null_true_false_scalars() {
    let v = parse("{\"n\":null,\"t\":true,\"f\":false}").unwrap();
    assert_eq!(*get(&v, "n"), JsonValue::Null);
    assert_eq!(*get(&v, "t"), JsonValue::Bool(true));
    assert_eq!(*get(&v, "f"), JsonValue::Bool(false));
}

#[test]
fn integer_preferred_over_float() {
    let v = parse("{\"pi\":3.14}").unwrap();
    assert_eq!(*get(&v, "pi"), JsonValue::Double(String::from("3.14")));
    let w = parse("{\"n\":42}").unwrap();
    assert_eq!(*get(&w, "n"), JsonValue::Int(42));
}

#[test]
fn float_value_matches_standard_reading() {
    // the literal text kept in the tree reads back as the expected double
    let v = parse("{\"pi\":3.14}").unwrap();
    match get(&v, "pi") {
        JsonValue::Double(text) => {
            let x: f64 = text.parse().unwrap();
            assert_eq!(x, 3.14f64);
        },
        _ => panic!("expected a float"),
    }
}

#[test]
fn exponent_float() {
    let v = parse("[1e5, -2.5E-3, .5, 7.]").unwrap();
    let expected = JsonValue::List(vec![
        JsonValue::Double(String::from("1e5")),
        JsonValue::Double(String::from("-2.5E-3")),
        JsonValue::Double(String::from(".5")),
        JsonValue::Double(String::from("7.")),
    ]);
    assert_eq!(v, expected);
}

#[test]
fn trailing_comma_is_malformed_key() {
    assert_eq!(parse("{\"a\":1,}").unwrap_err(), JsonError::MalformedKey);
}

#[test]
fn whitespace_outside_quotes_is_insignificant() {
    let spaced = parse("{ \"a\" : 1 }").unwrap();
    let dense = parse("{\"a\":1}").unwrap();
    assert_eq!(spaced, dense);
}

#[test]
fn whitespace_inside_quotes_is_preserved() {
    let v = parse("{\"a\":\"x y\"}").unwrap();
    assert_eq!(*get(&v, "a"), JsonValue::Text(String::from("x y")));
}

#[test]
fn tabs_and_newlines_are_stripped() {
    let v = parse("{\n\t\"a\"\t:\n [ 1 ,\t2 ]\n}").unwrap();
    let expected = parse("{\"a\":[1,2]}").unwrap();
    assert_eq!(v, expected);
}

#[test]
fn empty_containers() {
    assert_eq!(parse("{}").unwrap(), JsonValue::Dict(vec![]));
    assert_eq!(parse("[]").unwrap(), JsonValue::List(vec![]));
    let v = parse("{\"a\":{},\"b\":[]}").unwrap();
    assert_eq!(*get(&v, "a"), JsonValue::Dict(vec![]));
    assert_eq!(*get(&v, "b"), JsonValue::List(vec![]));
}

#[test]
fn nested_containers() {
    let v = parse("{\"a\":{\"b\":[1,{\"c\":null}]}}").unwrap();
    let inner = get(get(&v, "a"), "b");
    match inner {
        JsonValue::List(elems) => {
            assert_eq!(elems[0], JsonValue::Int(1));
            assert_eq!(*get(&elems[1], "c"), JsonValue::Null);
        },
        _ => panic!("expected an array"),
    }
}

#[test]
fn integer_bounds() {
    let v = parse("[9223372036854775807,-9223372036854775808]").unwrap();
    let expected = JsonValue::List(vec![
        JsonValue::Int(i64::MAX),
        JsonValue::Int(i64::MIN),
    ]);
    assert_eq!(v, expected);
}

#[test]
fn integer_overflow_becomes_float() {
    let v = parse("{\"n\":9223372036854775808}").unwrap();
    assert_eq!(
        *get(&v, "n"),
        JsonValue::Double(String::from("9223372036854775808"))
    );
}

#[test]
fn plus_sign_and_leading_zeros() {
    let v = parse("[+42,007]").unwrap();
    let expected = JsonValue::List(vec![JsonValue::Int(42), JsonValue::Int(7)]);
    assert_eq!(v, expected);
}

#[test]
fn duplicate_keys_overwrite() {
    let v = parse("{\"a\":1,\"a\":2}").unwrap();
    assert_eq!(*get(&v, "a"), JsonValue::Int(2));
    match &v {
        JsonValue::Dict(entries) => assert_eq!(entries.len(), 1),
        _ => panic!("expected an object"),
    }
}

#[test]
fn error_invalid_document() {
    assert_eq!(parse("42").unwrap_err(), JsonError::InvalidDocument);
    assert_eq!(parse("").unwrap_err(), JsonError::InvalidDocument);
    assert_eq!(parse("  \n ").unwrap_err(), JsonError::InvalidDocument);
}

#[test]
fn error_unterminated_quote() {
    assert_eq!(parse("{\"a:1}").unwrap_err(), JsonError::UnterminatedQuote);
    assert_eq!(parse("['x]").unwrap_err(), JsonError::UnterminatedQuote);
}

#[test]
fn error_malformed_key() {
    assert_eq!(parse("{a:1}").unwrap_err(), JsonError::MalformedKey);
    assert_eq!(parse("{\"a\"1}").unwrap_err(), JsonError::MalformedKey);
}

#[test]
fn error_malformed_string() {
    // the scalar token is cut at the comma, leaving the quote unmatched
    assert_eq!(parse("[\"a,b\"]").unwrap_err(), JsonError::MalformedString);
}

#[test]
fn error_malformed_number() {
    assert_eq!(parse("[abc]").unwrap_err(), JsonError::MalformedNumber);
    assert_eq!(parse("{\"a\":1.2.3}").unwrap_err(), JsonError::MalformedNumber);
    assert_eq!(parse("[1e]").unwrap_err(), JsonError::MalformedNumber);
}

#[test]
fn error_unterminated_value() {
    assert_eq!(parse("[1").unwrap_err(), JsonError::UnterminatedValue);
}

#[test]
fn error_malformed_object() {
    assert_eq!(parse("{\"a\":{}x}").unwrap_err(), JsonError::MalformedObject);
    assert_eq!(parse("{\"a\":{}").unwrap_err(), JsonError::MalformedObject);
    assert_eq!(parse("{\"a\":1").unwrap_err(), JsonError::UnterminatedValue);
}

#[test]
fn error_malformed_array() {
    assert_eq!(parse("[[1];2]").unwrap_err(), JsonError::MalformedArray);
    assert_eq!(parse("[1,2").unwrap_err(), JsonError::UnterminatedValue);
}

#[test]
fn trailing_content_after_root_is_ignored() {
    let v = parse("{\"a\":1}garbage").unwrap();
    assert_eq!(*get(&v, "a"), JsonValue::Int(1));
}

#[test]
fn single_quoted_keys() {
    let v = parse("{'a':1}").unwrap();
    assert_eq!(*get(&v, "a"), JsonValue::Int(1));
}
