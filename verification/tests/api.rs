use kvp_api::json::Json;
use kvp_api::merge::merge_docs;
use kvp_api::parse::parse_json;
use kvp_api::router::{handle, Method};
use kvp_api::ser::to_bytes;
use kvp_api::store::Store;

fn parse(text: &str) -> Json {
    parse_json(&text.as_bytes().to_vec()).expect("valid JSON")
}

fn text_of(doc: &Json) -> String {
    String::from_utf8(to_bytes(doc)).expect("serialized JSON is UTF-8")
}

fn ts() -> Vec<u8> {
    b"2024-01-01T00:00:00+00:00".to_vec()
}

#[test]
fn read_of_never_written_key_is_not_found() {
    let store = Store::new();
    assert!(store.get_item(&b"ghost".to_vec()).is_none());
}

#[test]
fn delete_of_never_written_key_is_a_noop() {
    let mut store = Store::new();
    store.put_item_at(&b"other".to_vec(), parse("1"), ts());
    store.delete_item(&b"ghost".to_vec());
    assert!(store.get_item(&b"ghost".to_vec()).is_none());
    assert!(store.get_item(&b"other".to_vec()).is_some());
}

#[test]
fn write_then_read_round_trips() {
    let mut store = Store::new();
    let doc = parse("{\"name\":\"Ann\",\"age\":30}");
    store.put_item_at(&b"u1".to_vec(), doc, ts());
    let read = store.get_item(&b"u1".to_vec()).expect("record exists");
    assert_eq!(text_of(read), "{\"name\":\"Ann\",\"age\":30}");
}

#[test]
fn overwrite_replaces_the_document() {
    let mut store = Store::new();
    store.put_item_at(&b"k".to_vec(), parse("1"), ts());
    store.put_item_at(&b"k".to_vec(), parse("2"), ts());
    let read = store.get_item(&b"k".to_vec()).expect("record exists");
    assert_eq!(text_of(read), "2");
}

#[test]
fn delete_is_idempotent() {
    let mut store = Store::new();
    store.put_item_at(&b"k".to_vec(), parse("true"), ts());
    store.delete_item(&b"k".to_vec());
    assert!(store.get_item(&b"k".to_vec()).is_none());
    store.delete_item(&b"k".to_vec());
    assert!(store.get_item(&b"k".to_vec()).is_none());
}

#[test]
fn patch_with_empty_object_leaves_document_unchanged() {
    let doc = parse("{\"a\":1,\"b\":[2,3]}");
    let merged = merge_docs(doc, &parse("{}"));
    assert_eq!(text_of(&merged), "{\"a\":1,\"b\":[2,3]}");
}

#[test]
fn patch_with_null_removes_the_field() {
    let doc = parse("{\"a\":1,\"b\":2}");
    let merged = merge_docs(doc, &parse("{\"a\":null}"));
    assert_eq!(text_of(&merged), "{\"b\":2}");
}

#[test]
fn patch_merges_nested_objects_preserving_siblings() {
    let doc = parse("{\"a\":{\"c\":2},\"d\":3}");
    let merged = merge_docs(doc, &parse("{\"a\":{\"b\":1}}"));
    assert_eq!(text_of(&merged), "{\"a\":{\"c\":2,\"b\":1},\"d\":3}");
}

#[test]
fn patch_with_non_object_replaces_wholesale() {
    let doc = parse("{\"a\":1}");
    let merged = merge_docs(doc, &parse("[1,2]"));
    assert_eq!(text_of(&merged), "[1,2]");
}

#[test]
fn patch_of_non_object_target_starts_from_empty_object() {
    let doc = parse("7");
    let merged = merge_docs(doc, &parse("{\"a\":1}"));
    assert_eq!(text_of(&merged), "{\"a\":1}");
}

#[test]
fn user_record_scenario() {
    let mut store = Store::new();
    let key = b"u1".to_vec();
    store.put_item_at(&key, parse("{\"name\":\"Ann\",\"age\":30}"), ts());
    assert_eq!(
        text_of(store.get_item(&key).expect("written")),
        "{\"name\":\"Ann\",\"age\":30}"
    );
    store.patch_item_at(&key, &parse("{\"age\":31,\"city\":null}"), ts());
    assert_eq!(
        text_of(store.get_item(&key).expect("still there")),
        "{\"name\":\"Ann\",\"age\":31}"
    );
    store.patch_item_at(&key, &parse("{\"age\":null}"), ts());
    assert_eq!(
        text_of(store.get_item(&key).expect("still there")),
        "{\"name\":\"Ann\"}"
    );
}

#[test]
fn get_of_missing_key_is_404() {
    let mut store = Store::new();
    let r = handle(&mut store, Method::Get, &b"/missing".to_vec(), None, ts());
    assert_eq!(r.status, 404);
    assert!(r.body.is_empty());
}

#[test]
fn post_of_invalid_body_is_400_and_writes_nothing() {
    let mut store = Store::new();
    let body = b"not json".to_vec();
    let r = handle(&mut store, Method::Post, &b"/k".to_vec(), Some(&body), ts());
    assert_eq!(r.status, 400);
    assert!(r.body.is_empty());
    let r = handle(&mut store, Method::Get, &b"/k".to_vec(), None, ts());
    assert_eq!(r.status, 404);
}

#[test]
fn patch_of_missing_key_creates_the_record() {
    let mut store = Store::new();
    let body = b"{\"a\":1,\"b\":null}".to_vec();
    let r = handle(&mut store, Method::Patch, &b"/missing".to_vec(), Some(&body), ts());
    assert_eq!(r.status, 204);
    let r = handle(&mut store, Method::Get, &b"/missing".to_vec(), None, ts());
    assert_eq!(r.status, 200);
    assert_eq!(String::from_utf8(r.body).unwrap(), "{\"a\":1}");
}

#[test]
fn patch_of_missing_key_with_non_object_stores_the_patch() {
    let mut store = Store::new();
    let body = b"5".to_vec();
    let r = handle(&mut store, Method::Patch, &b"/n".to_vec(), Some(&body), ts());
    assert_eq!(r.status, 204);
    let r = handle(&mut store, Method::Get, &b"/n".to_vec(), None, ts());
    assert_eq!(r.status, 200);
    assert_eq!(String::from_utf8(r.body).unwrap(), "5");
}

#[test]
fn full_request_cycle_through_the_router() {
    let mut store = Store::new();
    let path = b"/u1".to_vec();
    let body = b" {\"name\":\"Ann\",\"age\":30} ".to_vec();
    let r = handle(&mut store, Method::Post, &path, Some(&body), ts());
    assert_eq!(r.status, 204);
    assert!(r.body.is_empty());
    let r = handle(&mut store, Method::Get, &path, None, ts());
    assert_eq!(r.status, 200);
    assert_eq!(String::from_utf8(r.body).unwrap(), "{\"name\":\"Ann\",\"age\":30}");
    let r = handle(&mut store, Method::Delete, &path, None, ts());
    assert_eq!(r.status, 204);
    let r = handle(&mut store, Method::Get, &path, None, ts());
    assert_eq!(r.status, 404);
}

#[test]
fn malformed_paths_are_400() {
    let mut store = Store::new();
    assert_eq!(handle(&mut store, Method::Get, &b"nokey".to_vec(), None, ts()).status, 400);
    assert_eq!(handle(&mut store, Method::Get, &b"/".to_vec(), None, ts()).status, 400);
    assert_eq!(handle(&mut store, Method::Get, &b"/a/b".to_vec(), None, ts()).status, 400);
}

#[test]
fn unsupported_method_is_400() {
    let mut store = Store::new();
    let r = handle(&mut store, Method::Other, &b"/k".to_vec(), None, ts());
    assert_eq!(r.status, 400);
}

#[test]
fn missing_bodies_are_400() {
    let mut store = Store::new();
    assert_eq!(handle(&mut store, Method::Post, &b"/k".to_vec(), None, ts()).status, 400);
    assert_eq!(handle(&mut store, Method::Patch, &b"/k".to_vec(), None, ts()).status, 400);
}

#[test]
fn unparseable_patch_body_is_415() {
    let mut store = Store::new();
    let body = b"not json".to_vec();
    let r = handle(&mut store, Method::Patch, &b"/k".to_vec(), Some(&body), ts());
    assert_eq!(r.status, 415);
}

#[test]
fn writes_through_the_clock_stamp_a_timestamp() {
    let mut store = Store::new();
    let key = b"k".to_vec();
    store.put_item(&key, parse("{\"a\":1}"));
    assert_eq!(text_of(store.get_item(&key).expect("written")), "{\"a\":1}");
    store.patch_item(&key, &parse("{\"a\":2}"));
    assert_eq!(text_of(store.get_item(&key).expect("written")), "{\"a\":2}");
}

#[test]
fn serializer_emits_canonical_forms() {
    assert_eq!(text_of(&parse("null")), "null");
    assert_eq!(text_of(&parse("true")), "true");
    assert_eq!(text_of(&parse("false")), "false");
    assert_eq!(text_of(&parse("-0.5e3")), "-0.5e3");
    assert_eq!(text_of(&parse("[]")), "[]");
    assert_eq!(text_of(&parse("{}")), "{}");
    assert_eq!(text_of(&parse(" [ 1 , \"x\" , {} ] ")), "[1,\"x\",{}]");
}

#[test]
fn parser_accepts_escapes_and_keeps_them() {
    assert_eq!(text_of(&parse("\"a\\nb\"")), "\"a\\nb\"");
    assert_eq!(text_of(&parse("\"a\\u0041b\"")), "\"a\\u0041b\"");
}

#[test]
fn parser_takes_the_last_of_repeated_keys() {
    assert_eq!(text_of(&parse("{\"a\":1,\"a\":2}")), "{\"a\":2}");
}

#[test]
fn parser_rejects_malformed_texts() {
    for bad in [
        "", " ", "not json", "tru", "nul", "{", "[", "{\"a\":}", "{\"a\" 1}", "[1,]",
        "{\"a\":1,}", "01", "1.", "1e", "-", "\"unterminated", "\"bad\\escape\"", "\"tab\tchar\"",
        "\"u\\u12g4\"", "1 2", "[1] extra",
    ] {
        assert!(parse_json(&bad.as_bytes().to_vec()).is_none(), "accepted: {bad}");
    }
}

#[test]
fn serialization_round_trips_through_the_parser() {
    for text in [
        "null",
        "0",
        "-12.5e-3",
        "\"he\\\"llo\"",
        "[[],[1],{\"a\":[true,null]}]",
        "{\"name\":\"Ann\",\"nested\":{\"x\":[1,2,3]},\"flag\":false}",
    ] {
        let doc = parse(text);
        let round = parse_json(&to_bytes(&doc)).expect("own output parses");
        assert_eq!(text_of(&round), text_of(&doc));
        assert_eq!(text_of(&doc), text);
    }
}

#[test]
fn documents_can_be_built_by_hand() {
    let doc = Json::Obj(vec![
        (b"n".to_vec(), Json::Num(b"1".to_vec())),
        (b"s".to_vec(), Json::Str(b"x".to_vec())),
        (b"l".to_vec(), Json::Arr(vec![Json::Null, Json::Bool(true)])),
    ]);
    assert_eq!(text_of(&doc), "{\"n\":1,\"s\":\"x\",\"l\":[null,true]}");
    let copy = doc.dup();
    assert_eq!(text_of(&copy), text_of(&doc));
}
