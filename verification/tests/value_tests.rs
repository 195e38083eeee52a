use relaxed_json::parse;
use relaxed_json::parse_key;
use relaxed_json::parse_str_value;
use relaxed_json::JsonError;
use relaxed_json::JsonValue;

#[test]
fn insert_map_on_dict() {
    let mut v = JsonValue::Dict(vec![]);
    v.insert_map(String::from("a"), JsonValue::Int(1)).unwrap();
    v.insert_map(String::from("b"), JsonValue::Bool(true)).unwrap();
    let expected = JsonValue::Dict(vec![
        (String::from("a"), JsonValue::Int(1)),
        (String::from("b"), JsonValue::Bool(true)),
    ]);
    assert_eq!(v, expected);
}

#[test]
fn insert_map_overwrites_existing_key_in_place() {
    let mut v = JsonValue::Dict(vec![
        (String::from("a"), JsonValue::Int(1)),
        (String::from("b"), JsonValue::Int(2)),
    ]);
    v.insert_map(String::from("a"), JsonValue::Int(9)).unwrap();
    let expected = JsonValue::Dict(vec![
        (String::from("a"), JsonValue::Int(9)),
        (String::from("b"), JsonValue::Int(2)),
    ]);
    assert_eq!(v, expected);
}

#[test]
fn insert_map_on_array_is_type_mismatch() {
    let mut v = JsonValue::List(vec![]);
    assert_eq!(
        v.insert_map(String::from("a"), JsonValue::Null).unwrap_err(),
        JsonError::TypeMismatch
    );
    // the value is untouched
    assert_eq!(v, JsonValue::List(vec![]));
}

#[test]
fn insert_vec_appends_in_order() {
    let mut v = JsonValue::List(vec![]);
    v.insert_vec(JsonValue::Int(1)).unwrap();
    v.insert_vec(JsonValue::Text(String::from("x"))).unwrap();
    let expected = JsonValue::List(vec![
        JsonValue::Int(1),
        JsonValue::Text(String::from("x")),
    ]);
    assert_eq!(v, expected);
}

#[test]
fn insert_vec_on_scalar_is_type_mismatch() {
    let mut v = JsonValue::Int(3);
    assert_eq!(v.insert_vec(JsonValue::Null).unwrap_err(), JsonError::TypeMismatch);
}

#[test]
fn get_map_absent_key_is_none_not_error() {
    let v = JsonValue::Dict(vec![(String::from("a"), JsonValue::Int(1))]);
    assert!(v.get_map(&String::from("b")).unwrap().is_none());
    assert_eq!(*v.get_map(&String::from("a")).unwrap().unwrap(), JsonValue::Int(1));
}

#[test]
fn get_map_on_array_is_type_mismatch() {
    let v = JsonValue::List(vec![]);
    assert_eq!(v.get_map(&String::from("a")).unwrap_err(), JsonError::TypeMismatch);
}

#[test]
fn get_vec_in_and_out_of_range() {
    let v = JsonValue::List(vec![JsonValue::Int(5), JsonValue::Null]);
    assert_eq!(*v.get_vec(0).unwrap().unwrap(), JsonValue::Int(5));
    assert_eq!(*v.get_vec(1).unwrap().unwrap(), JsonValue::Null);
    assert!(v.get_vec(2).unwrap().is_none());
}

#[test]
fn get_vec_on_object_is_type_mismatch() {
    let v = JsonValue::Dict(vec![]);
    assert_eq!(v.get_vec(0).unwrap_err(), JsonError::TypeMismatch);
}

#[test]
fn render_scalars() {
    assert_eq!(JsonValue::Null.to_string().unwrap(), "null");
    assert_eq!(JsonValue::Bool(true).to_string().unwrap(), "true");
    assert_eq!(JsonValue::Bool(false).to_string().unwrap(), "false");
    assert_eq!(JsonValue::Int(42).to_string().unwrap(), "42");
    assert_eq!(JsonValue::Int(-7).to_string().unwrap(), "-7");
    assert_eq!(JsonValue::Int(0).to_string().unwrap(), "0");
    assert_eq!(JsonValue::Int(i64::MIN).to_string().unwrap(), "-9223372036854775808");
    assert_eq!(JsonValue::Int(i64::MAX).to_string().unwrap(), "9223372036854775807");
    assert_eq!(JsonValue::Double(String::from("3.14")).to_string().unwrap(), "3.14");
    assert_eq!(JsonValue::Text(String::from("x y")).to_string().unwrap(), "\"x y\"");
}

#[test]
fn render_containers() {
    assert_eq!(JsonValue::List(vec![]).to_string().unwrap(), "[]");
    assert_eq!(JsonValue::Dict(vec![]).to_string().unwrap(), "{}");
    let v = JsonValue::List(vec![JsonValue::Int(1), JsonValue::Int(2)]);
    assert_eq!(v.to_string().unwrap(), "[1,2]");
    let w = JsonValue::Dict(vec![
        (String::from("a"), JsonValue::Int(1)),
        (String::from("b"), JsonValue::List(vec![JsonValue::Null])),
    ]);
    assert_eq!(w.to_string().unwrap(), "{\"a\":1,\"b\":[null]}");
}

fn sample_tree() -> JsonValue {
    JsonValue::Dict(vec![
        (String::from("name"), JsonValue::Text(String::from("deep thought"))),
        (String::from("answer"), JsonValue::Int(42)),
        (String::from("pi"), JsonValue::Double(String::from("3.14"))),
        (String::from("ok"), JsonValue::Bool(true)),
        (String::from("nothing"), JsonValue::Null),
        (
            String::from("items"),
            JsonValue::List(vec![
                JsonValue::Int(-1),
                JsonValue::Text(String::from("x")),
                JsonValue::Dict(vec![]),
                JsonValue::List(vec![JsonValue::Bool(false)]),
            ]),
        ),
    ])
}

#[test]
fn parse_of_render_round_trips() {
    let text = sample_tree().to_string().unwrap();
    let back = parse(&text).unwrap();
    assert_eq!(back, sample_tree());
}

#[test]
fn render_of_parse_round_trips_textually_here() {
    // key order is kept, so on this input the text round-trips too
    let text = "{\"a\":1,\"b\":[true,null,\"x\"],\"c\":{\"d\":2.5}}";
    let v = parse(text).unwrap();
    assert_eq!(v.to_string().unwrap(), text);
}

#[test]
fn parse_key_reads_through_the_colon() {
    let chars: Vec<char> = "\"ab\":1".chars().collect();
    let (key, next) = parse_key(&chars, 0).unwrap();
    assert_eq!(key, "ab");
    assert_eq!(next, 5);
}

#[test]
fn parse_key_without_colon_is_malformed() {
    let chars: Vec<char> = "\"ab\"1".chars().collect();
    assert_eq!(parse_key(&chars, 0).unwrap_err(), JsonError::MalformedKey);
    let bare: Vec<char> = "ab:1".chars().collect();
    assert_eq!(parse_key(&bare, 0).unwrap_err(), JsonError::MalformedKey);
}

#[test]
fn parse_str_value_strips_matching_quotes() {
    let token: Vec<char> = "'hi there'".chars().collect();
    assert_eq!(parse_str_value(&token).unwrap(), "hi there");
    let double: Vec<char> = "\"a'b\"".chars().collect();
    assert_eq!(parse_str_value(&double).unwrap(), "a'b");
}

#[test]
fn parse_str_value_unclosed_is_malformed() {
    let token: Vec<char> = "\"abc".chars().collect();
    assert_eq!(parse_str_value(&token).unwrap_err(), JsonError::MalformedString);
}
