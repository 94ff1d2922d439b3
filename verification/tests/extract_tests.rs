use globalip_memo::extract_ip;
use globalip_memo::flatten;
use globalip_memo::parse_document;
use globalip_memo::parse_json;
use globalip_memo::ErrorSource;
use globalip_memo::JsonValue;

fn get_entry<'a>(map: &'a [(String, JsonValue)], key: &str) -> Option<&'a JsonValue> {
    map.iter().find(|e| e.0 == key).map(|e| &e.1)
}

fn assert_value(actual: Option<&JsonValue>, expected: JsonValue) {
    assert!(actual.is_some());
    assert_eq!(actual.unwrap(), &expected);
}

#[test]
fn test_flatten() {
    let text = r#"{
        "hoge": {
            "foo": {
                "arr": [
                    "0",
                    "1"
                ],
                "obj": {
                    "key": "value"
                },
                "num": 0,
                "boolean": false,
                "null": null
            }
        }
    }
    "#;
    let result = parse_document(text);
    assert!(result.is_ok());
    let value = result.unwrap();
    let map = flatten(&value);
    assert_eq!(map.len(), 6);
    assert_value(get_entry(&map, "hoge.foo.arr[0]"), JsonValue::Text("0".to_string()));
    assert_value(get_entry(&map, "hoge.foo.arr[1]"), JsonValue::Text("1".to_string()));
    assert_value(get_entry(&map, "hoge.foo.obj.key"), JsonValue::Text("value".to_string()));
    assert_value(get_entry(&map, "hoge.foo.num"), JsonValue::Number("0".to_string()));
    assert_value(get_entry(&map, "hoge.foo.boolean"), JsonValue::Bool(false));
    assert_value(get_entry(&map, "hoge.foo.null"), JsonValue::Null);
}

#[test]
fn parse_json_text_leaves_only() {
    let text = r#"{"hoge":{"foo":{"arr":["0","1"],"obj":{"key":"value"},"num":0,"boolean":false,"null":null}}}"#;
    assert_eq!(parse_json(text, "hoge.foo.obj.key").unwrap(), "value");
    assert_eq!(parse_json(text, "hoge.foo.arr[1]").unwrap(), "1");
    let num = parse_json(text, "hoge.foo.num");
    assert!(num.is_err());
    assert_eq!(num.unwrap_err().source(), ErrorSource::General);
    let missing = parse_json(text, "hoge.bar");
    assert!(missing.is_err());
}

#[test]
fn parse_json_rejects_malformed_document() {
    let r = parse_json("{not json", "a");
    assert!(r.is_err());
    assert_eq!(r.unwrap_err().source(), ErrorSource::Json);
}

#[test]
fn parse_json_simple_ip_field() {
    let text = r#"{"ip": "1.2.3.4"}"#;
    assert_eq!(parse_json(text, "ip").unwrap(), "1.2.3.4");
}

#[test]
fn extract_ip_named_group() {
    let r = extract_ip("ip: 1.2.3.4 end", r"ip: (?P<ip>\d+\.\d+\.\d+\.\d+)");
    assert_eq!(r.unwrap(), "1.2.3.4");
    let no_match = extract_ip("nothing here", r"ip: (?P<ip>\d+\.\d+\.\d+\.\d+)");
    assert!(no_match.is_err());
    assert_eq!(no_match.unwrap_err().source(), ErrorSource::General);
}

#[test]
fn extract_ip_empty_pattern_is_identity() {
    assert_eq!(extract_ip("8.8.8.8\n", "").unwrap(), "8.8.8.8\n");
}

#[test]
fn extract_ip_invalid_pattern() {
    let r = extract_ip("text", "(unclosed");
    assert!(r.is_err());
    assert_eq!(r.unwrap_err().source(), ErrorSource::Regex);
}

#[test]
fn extract_ip_group_without_name_fails() {
    let r = extract_ip("ip: 1.2.3.4", r"ip: (\d+\.\d+\.\d+\.\d+)");
    assert!(r.is_err());
}
