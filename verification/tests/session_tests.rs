use kvs_server::codec::encode_request;
use kvs_server::protocol::Request;
use kvs_server::session::{dispatch_mem, handle_request, serve_connection};
use kvs_server::store::{KvsEngine, MemStore};

fn chars(s: &str) -> Vec<char> {
    s.chars().collect()
}

fn put(key: &str, value: &str) -> Request {
    Request::Put { key: key.to_string(), value: value.to_string() }
}

fn get(key: &str) -> Request {
    Request::Get { key: key.to_string() }
}

fn remove(key: &str) -> Request {
    Request::Remove { key: key.to_string() }
}

#[test]
fn one_reply_per_request_in_order() {
    // The worked example: Set a=1 then Get a on one connection.
    let mut store = MemStore::new();
    let input = chars(&format!("{}{}", encode_request(&put("a", "1")), encode_request(&get("a"))));
    let (out, clean) = serve_connection(&mut store, &input);
    assert!(clean);
    assert_eq!(out, "{\"Ok\":null}{\"Ok\":\"1\"}");
}

#[test]
fn set_then_get_on_another_connection() {
    let mut store = MemStore::new();
    let first = chars(&encode_request(&put("k", "v")));
    let (out1, clean1) = serve_connection(&mut store, &first);
    assert!(clean1);
    assert_eq!(out1, "{\"Ok\":null}");
    // A second connection against the same store sees the write.
    let second = chars(&encode_request(&get("k")));
    let (out2, clean2) = serve_connection(&mut store, &second);
    assert!(clean2);
    assert_eq!(out2, "{\"Ok\":\"v\"}");
}

#[test]
fn get_of_absent_key_is_ok_none() {
    let mut store = MemStore::new();
    let input = chars(&encode_request(&get("missing")));
    let (out, clean) = serve_connection(&mut store, &input);
    assert!(clean);
    assert_eq!(out, "{\"Ok\":null}");
}

#[test]
fn remove_absent_key_errs_and_connection_stays_usable() {
    let mut store = MemStore::new();
    let input = chars(&format!(
        "{}{}{}",
        encode_request(&remove("ghost")),
        encode_request(&put("ghost", "1")),
        encode_request(&remove("ghost"))
    ));
    let (out, clean) = serve_connection(&mut store, &input);
    assert!(clean);
    assert_eq!(out, "{\"Err\":\"Key not found\"}{\"Ok\":null}{\"Ok\":null}");
}

#[test]
fn overwrite_replaces_value() {
    let mut store = MemStore::new();
    let input = chars(&format!(
        "{}{}{}",
        encode_request(&put("k", "old")),
        encode_request(&put("k", "new")),
        encode_request(&get("k"))
    ));
    let (out, clean) = serve_connection(&mut store, &input);
    assert!(clean);
    assert_eq!(out, "{\"Ok\":null}{\"Ok\":null}{\"Ok\":\"new\"}");
}

#[test]
fn malformed_tail_closes_after_serving_valid_prefix() {
    let mut store = MemStore::new();
    let input = chars(&format!(
        "{}{}garbage",
        encode_request(&put("a", "1")),
        encode_request(&get("a"))
    ));
    let (out, clean) = serve_connection(&mut store, &input);
    assert!(!clean);
    assert_eq!(out, "{\"Ok\":null}{\"Ok\":\"1\"}");
    // The server keeps serving fresh connections against the same store.
    let next = chars(&encode_request(&get("a")));
    let (out2, clean2) = serve_connection(&mut store, &next);
    assert!(clean2);
    assert_eq!(out2, "{\"Ok\":\"1\"}");
}

#[test]
fn truncated_tail_closes_unclean() {
    let mut store = MemStore::new();
    let input = chars("{\"Get\":{\"key\":\"a");
    let (out, clean) = serve_connection(&mut store, &input);
    assert!(!clean);
    assert_eq!(out, "");
}

#[test]
fn disjoint_keys_stay_isolated() {
    // Two connections interleaved on disjoint keys: each sees exactly
    // its own writes.
    let mut store = MemStore::new();
    let (o1, _) = serve_connection(&mut store, &chars(&encode_request(&put("left", "L"))));
    let (o2, _) = serve_connection(&mut store, &chars(&encode_request(&put("right", "R"))));
    let (o3, _) = serve_connection(&mut store, &chars(&encode_request(&remove("left"))));
    let (o4, _) = serve_connection(&mut store, &chars(&encode_request(&get("right"))));
    let (o5, _) = serve_connection(&mut store, &chars(&encode_request(&get("left"))));
    assert_eq!(o1, "{\"Ok\":null}");
    assert_eq!(o2, "{\"Ok\":null}");
    assert_eq!(o3, "{\"Ok\":null}");
    assert_eq!(o4, "{\"Ok\":\"R\"}");
    assert_eq!(o5, "{\"Ok\":null}");
}

#[test]
fn dispatch_mem_renders_each_reply() {
    let mut store = MemStore::new();
    assert_eq!(dispatch_mem(&mut store, put("k", "v")), "{\"Ok\":null}");
    assert_eq!(dispatch_mem(&mut store, get("k")), "{\"Ok\":\"v\"}");
    assert_eq!(dispatch_mem(&mut store, remove("k")), "{\"Ok\":null}");
    assert_eq!(dispatch_mem(&mut store, remove("k")), "{\"Err\":\"Key not found\"}");
}

#[test]
fn handle_request_through_the_engine_trait() {
    let mut store = MemStore::new();
    assert_eq!(handle_request(&mut store, put("k", "v")), "{\"Ok\":null}");
    assert_eq!(handle_request(&mut store, get("k")), "{\"Ok\":\"v\"}");
    assert_eq!(handle_request(&mut store, get("absent")), "{\"Ok\":null}");
    assert_eq!(handle_request(&mut store, remove("absent")), "{\"Err\":\"Key not found\"}");
}

#[test]
fn engine_operations_report_outcomes() {
    let mut store = MemStore::new();
    assert_eq!(store.set("k".to_string(), "v".to_string()), Ok(()));
    assert_eq!(store.get("k".to_string()), Ok(Some("v".to_string())));
    assert_eq!(store.get("other".to_string()), Ok(None));
    assert_eq!(store.remove("k".to_string()), Ok(()));
    let err = store.remove("k".to_string()).unwrap_err();
    assert_eq!(err.msg, "Key not found");
}
