use jsonptr_lite::{ptr, ptr_mut};
use jsonptr_lite::token::{parse_index, unescape_token};
use serde_json::Value;

fn doc(text: &str) -> Value {
    serde_json::from_str(text).unwrap()
}

#[test]
fn empty_pointer_returns_the_document_itself() {
    let v = doc(r#"{"a":[1,{"b":null}]}"#);
    let found = ptr(&v, "").unwrap();
    assert!(std::ptr::eq(found, &v));
    assert_eq!(found, &v);
}

#[test]
fn pointer_without_leading_slash_fails_everywhere() {
    for text in ["{\"a\":1}", "[1,2]", "\"a\"", "null", "{\"\":{\"a\":2}}"] {
        let v = doc(text);
        assert!(ptr(&v, "a").is_none());
        assert!(ptr(&v, "0").is_none());
        assert!(ptr(&v, "a/b").is_none());
        assert!(ptr(&v, "~0").is_none());
    }
}

#[test]
fn lone_tilde_fails_everywhere() {
    for text in ["{\"~\":1}", "[1,2]", "true", "{}"] {
        let v = doc(text);
        assert!(ptr(&v, "/~").is_none());
    }
}

#[test]
fn scalars_have_no_children() {
    for text in ["1", "\"abc\"", "true", "null", "2.5"] {
        let v = doc(text);
        assert!(ptr(&v, "/0").is_none());
        assert!(ptr(&v, "/").is_none());
    }
    let v = doc(r#"{"s":"abc"}"#);
    assert!(ptr(&v, "/s/0").is_none());
}

#[test]
fn repeated_lookups_agree() {
    let v = doc(r#"{"a":{"b":[4,5]}}"#);
    let first = ptr(&v, "/a/b/1").unwrap();
    let second = ptr(&v, "/a/b/1").unwrap();
    assert!(std::ptr::eq(first, second));
    assert!(ptr(&v, "/a/c").is_none());
    assert!(ptr(&v, "/a/c").is_none());
}

#[test]
fn empty_segments_name_the_empty_key() {
    let v = doc(r#"{"":{"":5},"a":{"":6}}"#);
    assert_eq!(ptr(&v, "/").and_then(|x| x.get("")).and_then(|x| x.as_i64()), Some(5));
    assert_eq!(ptr(&v, "//").and_then(|x| x.as_i64()), Some(5));
    assert_eq!(ptr(&v, "/a/").and_then(|x| x.as_i64()), Some(6));
    assert!(ptr(&v, "/a//").is_none());
}

#[test]
fn array_index_forms() {
    let v = doc(r#"{"items":[10,20,30]}"#);
    assert_eq!(ptr(&v, "/items/00").and_then(|x| x.as_i64()), Some(10));
    assert_eq!(ptr(&v, "/items/01").and_then(|x| x.as_i64()), Some(20));
    assert!(ptr(&v, "/items/+1").is_none());
    assert!(ptr(&v, "/items/-").is_none());
    assert!(ptr(&v, "/items/ 1").is_none());
    assert!(ptr(&v, "/items/").is_none());
    assert!(ptr(&v, "/items/99999999999999999999999").is_none());
}

#[test]
fn arrays_nested_in_arrays() {
    let v = doc(r#"[[1,2],[3,[4,5]]]"#);
    assert_eq!(ptr(&v, "/1/1/0").and_then(|x| x.as_i64()), Some(4));
    assert!(ptr(&v, "/2").is_none());
}

#[test]
fn escape_order_is_left_to_right() {
    let v = doc(r#"{"~1":1,"/":2,"~/":3}"#);
    assert_eq!(ptr(&v, "/~01").and_then(|x| x.as_i64()), Some(1));
    assert_eq!(ptr(&v, "/~1").and_then(|x| x.as_i64()), Some(2));
    assert_eq!(ptr(&v, "/~0~1").and_then(|x| x.as_i64()), Some(3));
    assert!(ptr(&v, "/~2").is_none());
}

#[test]
fn failed_write_lookup_leaves_document_alone() {
    let mut v = doc(r#"{"a":{"b":0},"items":[1,2,3]}"#);
    let before = v.clone();
    assert!(ptr_mut(&mut v, "/a/c").is_none());
    assert!(ptr_mut(&mut v, "/items/3").is_none());
    assert!(ptr_mut(&mut v, "/a/b/0").is_none());
    assert!(ptr_mut(&mut v, "a").is_none());
    assert!(ptr_mut(&mut v, "/~").is_none());
    assert_eq!(v, before);
}

#[test]
fn write_through_empty_pointer_replaces_document() {
    let mut v = doc(r#"{"a":1}"#);
    *ptr_mut(&mut v, "").unwrap() = Value::from("root");
    assert_eq!(ptr(&v, "").and_then(|x| x.as_str()), Some("root"));
}

#[test]
fn write_through_escaped_key() {
    let mut v = doc(r#"{"a/b":{"x~y":[0,0]}}"#);
    *ptr_mut(&mut v, "/a~1b/x~0y/1").unwrap() = Value::from(true);
    assert_eq!(ptr(&v, "/a~1b/x~0y/1").and_then(|x| x.as_bool()), Some(true));
    assert_eq!(v, doc(r#"{"a/b":{"x~y":[0,true]}}"#));
}

#[test]
fn write_lookup_reads_the_addressed_node() {
    let mut v = doc(r#"{"a":[7,8]}"#);
    assert_eq!(ptr_mut(&mut v, "/a/1").map(|x| x.clone()), Some(Value::from(8)));
}

#[test]
fn unescape_token_decodes() {
    assert_eq!(unescape_token("a~1b"), Some("a/b".to_string()));
    assert_eq!(unescape_token("x~0y"), Some("x~y".to_string()));
    assert_eq!(unescape_token("~01"), Some("~1".to_string()));
    assert_eq!(unescape_token("plain"), Some("plain".to_string()));
    assert_eq!(unescape_token(""), Some(String::new()));
    assert_eq!(unescape_token("é~1ß"), Some("é/ß".to_string()));
}

#[test]
fn unescape_token_rejects_bad_escapes() {
    assert_eq!(unescape_token("~"), None);
    assert_eq!(unescape_token("a~"), None);
    assert_eq!(unescape_token("~2"), None);
    assert_eq!(unescape_token("~a"), None);
    assert_eq!(unescape_token("a~1~"), None);
}

#[test]
fn parse_index_values() {
    assert_eq!(parse_index("0"), Some(0));
    assert_eq!(parse_index("00"), Some(0));
    assert_eq!(parse_index("007"), Some(7));
    assert_eq!(parse_index("1234"), Some(1234));
    assert_eq!(parse_index(&usize::MAX.to_string()), Some(usize::MAX));
}

#[test]
fn parse_index_rejects() {
    assert_eq!(parse_index(""), None);
    assert_eq!(parse_index("+1"), None);
    assert_eq!(parse_index("-1"), None);
    assert_eq!(parse_index("-"), None);
    assert_eq!(parse_index("1a"), None);
    assert_eq!(parse_index(" 1"), None);
    assert_eq!(parse_index("99999999999999999999999"), None);
    let just_over = format!("{}0", usize::MAX);
    assert_eq!(parse_index(&just_over), None);
}
