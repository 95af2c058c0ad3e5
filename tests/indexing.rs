use log_index::index::{extract_uri, index_record, Index, IndexError};
use log_index::json::{render_json, resolve, Json};
use log_index::slot::{
    field_names, inverted_file_name, load_document, load_line, render_doc_file, render_document, render_inverted_file, LoadError,
};
use log_index::store::{PostingStore, PutError};

fn s(t: &str) -> String {
    t.to_string()
}

fn obj(members: Vec<(&str, Json)>) -> Json {
    Json::Object(members.into_iter().map(|(k, v)| (s(k), v)).collect())
}

fn record(ts: u64, id: &str, rest: Vec<(&str, Json)>) -> Json {
    let mut members = vec![("timestamp", Json::UInt(ts)), ("requestID", Json::Str(s(id)))];
    members.extend(rest);
    obj(members)
}

fn nested() -> Json {
    obj(vec![("a", obj(vec![("b", Json::Array(vec![Json::UInt(10), Json::UInt(20), Json::UInt(30)]))]))])
}

fn save(store: &PostingStore) -> Vec<(String, String)> {
    let mut out = vec![(s("index.doc"), render_doc_file(store))];
    for f in field_names(store) {
        let text = render_inverted_file(store, f.as_str());
        out.push((format!("index.inv.{}", f), text));
    }
    out
}

#[test]
fn path_resolution() {
    let r = nested();
    assert_eq!(resolve(&r, "a.b.1"), Some(s("20")));
    assert_eq!(resolve(&r, "a.b.9"), None);
    assert_eq!(resolve(&r, "a.c"), None);
}

#[test]
fn path_resolution_edges() {
    let r = nested();
    assert_eq!(resolve(&r, "a.b.+2"), Some(s("30")));
    assert_eq!(resolve(&r, "a.b.x"), None);
    assert_eq!(resolve(&r, "a.b.1.c"), None);
    assert_eq!(resolve(&r, "a.b"), Some(s("[10,20,30]")));
    assert_eq!(resolve(&r, "a"), Some(s("{\"b\":[10,20,30]}")));
    assert_eq!(resolve(&r, ""), None);
    assert_eq!(resolve(&r, "a.b.99999999999999999999999"), None);
}

#[test]
fn leaf_rendering() {
    let r = obj(vec![
        ("s", Json::Str(s("say \"hi\""))),
        ("n", Json::Null),
        ("t", Json::Bool(true)),
        ("f", Json::Bool(false)),
        ("i", Json::Int(-42)),
        ("m", Json::Int(i64::MIN)),
        ("x", Json::Float(s("1.5"))),
        ("o", obj(vec![("q", Json::Str(s("a\"b")))])),
    ]);
    assert_eq!(resolve(&r, "s"), Some(s("say \"hi\"")));
    assert_eq!(resolve(&r, "n"), Some(s("null")));
    assert_eq!(resolve(&r, "t"), Some(s("true")));
    assert_eq!(resolve(&r, "f"), Some(s("false")));
    assert_eq!(resolve(&r, "i"), Some(s("-42")));
    assert_eq!(resolve(&r, "m"), Some(s("-9223372036854775808")));
    assert_eq!(resolve(&r, "x"), Some(s("1.5")));
    assert_eq!(resolve(&r, "o"), Some(s("{\"q\":\"a\\\"b\"}")));
    assert_eq!(render_json(&Json::Array(vec![])), s("[]"));
}

#[test]
fn document_identity() {
    assert_eq!(extract_uri(&record(100, "r1", vec![])), Some(s("100:r1")));
    assert_eq!(extract_uri(&obj(vec![("timestamp", Json::Int(-1)), ("requestID", Json::Str(s("r")))])), None);
    assert_eq!(extract_uri(&obj(vec![("timestamp", Json::UInt(1))])), None);
    assert_eq!(extract_uri(&Json::Null), None);
}

#[test]
fn document_identity_dedup() {
    let mut store = PostingStore::new();
    let params = vec![s("status"), s("path")];
    let a = record(7, "x", vec![("status", Json::Str(s("200"))), ("path", Json::Str(s("/a")))]);
    let b = record(7, "x", vec![("status", Json::Str(s("404")))]);
    assert!(index_record(&mut store, &a, &params).is_ok());
    assert!(index_record(&mut store, &b, &params).is_ok());
    assert_eq!(store.len(), 1);
    assert_eq!(render_doc_file(&store), s("0\t{\"URI\":\"7:x\",\"path\":\"/a\",\"status\":\"404\"}\n"));
    assert_eq!(render_inverted_file(&store, "status"), s("404\t0\n"));
}

#[test]
fn reserved_field() {
    let mut store = PostingStore::new();
    assert!(matches!(store.put("1:a", "URI", "v"), Err(PutError::ReservedField)));
    assert_eq!(store.len(), 0);
    assert_eq!(render_doc_file(&store), s(""));
    assert!(field_names(&store).is_empty());
    let r = record(1, "a", vec![("URI", Json::Str(s("v")))]);
    assert!(matches!(index_record(&mut store, &r, &vec![s("URI")]), Err(IndexError::ReservedField)));
    assert_eq!(store.len(), 0);
}

#[test]
fn missing_identity() {
    let mut store = PostingStore::new();
    let r = obj(vec![("status", Json::Str(s("200")))]);
    assert!(matches!(index_record(&mut store, &r, &vec![s("status")]), Err(IndexError::MissingIdentity)));
    assert_eq!(store.len(), 0);
}

#[test]
fn inverted_direct_consistency() {
    let mut store = PostingStore::new();
    assert!(store.put("1:a", "k", "x").is_ok());
    assert!(store.put("2:b", "k", "x").is_ok());
    assert!(store.put("1:a", "k", "y").is_ok());
    assert!(store.put("2:b", "j", "z").is_ok());
    assert_eq!(store.len(), 2);
    assert_eq!(render_inverted_file(&store, "k"), s("x\t1\ny\t0\n"));
    assert_eq!(render_inverted_file(&store, "j"), s("z\t1\n"));
    assert_eq!(render_inverted_file(&store, "URI"), s("1:a\t0\n2:b\t1\n"));
    assert_eq!(render_inverted_file(&store, "none"), s(""));
    assert_eq!(field_names(&store), vec![s("URI"), s("j"), s("k")]);
    assert_eq!(render_document(&store, 1), s("1\t{\"URI\":\"2:b\",\"j\":\"z\",\"k\":\"x\"}\n"));
}

#[test]
fn ids_sorted_numerically() {
    let mut store = PostingStore::new();
    for i in 0..12u64 {
        let uri = format!("{}:r", i);
        assert!(store.put(uri.as_str(), "v", "same").is_ok());
    }
    let expected: String = (0..12).map(|i| format!("same\t{}\n", i)).collect();
    assert_eq!(render_inverted_file(&store, "v"), expected);
}

#[test]
fn deterministic_save() {
    let mut a = PostingStore::new();
    assert!(a.put("1:a", "k", "x").is_ok());
    assert!(a.put("1:a", "b", "y").is_ok());
    assert!(a.put("2:b", "k", "w").is_ok());
    let mut b = PostingStore::new();
    assert!(b.put("1:a", "b", "y").is_ok());
    assert!(b.put("2:b", "k", "w").is_ok());
    assert!(b.put("1:a", "k", "x").is_ok());
    assert_eq!(save(&a), save(&b));
}

#[test]
fn round_trip() {
    let mut a = PostingStore::new();
    assert!(a.put("1:a", "k", "x\ty").is_ok());
    assert!(a.put("1:a", "q", "say \"hi\"").is_ok());
    assert!(a.put("2:b", "k", "w").is_ok());
    assert!(a.put("1:a", "k", "z").is_ok());
    let first = save(&a);
    let mut b = PostingStore::new();
    for line in first[0].1.lines() {
        assert!(load_line(&mut b, line).is_ok());
    }
    assert_eq!(save(&b), first);
}

#[test]
fn end_to_end_example() {
    let mut store = PostingStore::new();
    let r = record(100, "r1", vec![("status", Json::Str(s("200")))]);
    assert!(index_record(&mut store, &r, &vec![s("status")]).is_ok());
    let files = save(&store);
    assert_eq!(files[0], (s("index.doc"), s("0\t{\"URI\":\"100:r1\",\"status\":\"200\"}\n")));
    assert!(files.contains(&(s("index.inv.status"), s("200\t0\n"))));
    assert!(files.contains(&(s("index.inv.URI"), s("100:r1\t0\n"))));
}

#[test]
fn load_errors() {
    let mut store = PostingStore::new();
    assert!(matches!(load_line(&mut store, "0 {}"), Err(LoadError::Malformed)));
    assert!(matches!(load_line(&mut store, "1\t{\"URI\":\"a\",\"k\":\"v\"}"), Err(LoadError::OutOfSequence)));
    assert!(matches!(load_line(&mut store, "0\tnot json"), Err(LoadError::Malformed)));
    assert!(matches!(load_line(&mut store, "0\t{\"k\":\"v\"}"), Err(LoadError::MissingUri)));
    assert_eq!(store.len(), 0);
    assert!(load_line(&mut store, "0\t{\"URI\":\"a\",\"k\":\"v\"}").is_ok());
    assert_eq!(store.len(), 1);
    assert!(matches!(load_line(&mut store, "0\t{\"URI\":\"b\",\"k\":\"v\"}"), Err(LoadError::OutOfSequence)));
    assert_eq!(render_inverted_file(&store, "k"), s("v\t0\n"));
}

#[test]
fn load_document_sets_fields() {
    let mut store = PostingStore::new();
    let fields = vec![(s("URI"), s("5:z")), (s("a"), s("1"))];
    assert!(load_document(&mut store, 0, &fields).is_ok());
    assert!(matches!(load_document(&mut store, 0, &fields), Err(LoadError::OutOfSequence)));
    assert_eq!(render_doc_file(&store), s("0\t{\"URI\":\"5:z\",\"a\":\"1\"}\n"));
}

#[test]
fn index_settings() {
    let idx = Index::new("/tmp/slot", true);
    assert_eq!(idx.slot(), "/tmp/slot");
    assert!(idx.in_memory());
}

#[test]
fn inverted_file_names() {
    assert_eq!(inverted_file_name("status"), s("index.inv.status"));
    assert_eq!(inverted_file_name("a/b%c\\d"), s("index.inv.a%2Fb%25c%5Cd"));
    assert_eq!(inverted_file_name(""), s("index.inv."));
}

#[test]
fn control_characters_escaped() {
    let r = obj(vec![("o", obj(vec![("q", Json::Str(s("\u{1}\n\u{1f}/")))]))]);
    assert_eq!(resolve(&r, "o"), Some(s("{\"q\":\"\\u0001\\n\\u001f/\"}")));
}

#[test]
fn unresolved_paths_create_nothing() {
    let mut store = PostingStore::new();
    let r = record(3, "q", vec![("status", Json::Str(s("200")))]);
    assert!(index_record(&mut store, &r, &vec![s("missing"), s("status.x")]).is_ok());
    assert_eq!(store.len(), 0);
    assert!(index_record(&mut store, &r, &vec![]).is_ok());
    assert_eq!(store.len(), 0);
    assert!(index_record(&mut store, &r, &vec![s("status")]).is_ok());
    assert!(matches!(index_record(&mut store, &r, &vec![s("status"), s("URI")]), Ok(())));
    let hit = record(3, "q", vec![("URI", Json::Str(s("x"))), ("k", Json::Str(s("v")))]);
    assert!(matches!(index_record(&mut store, &hit, &vec![s("k"), s("URI")]), Err(IndexError::ReservedField)));
    assert_eq!(render_doc_file(&store), s("0\t{\"URI\":\"3:q\",\"status\":\"200\"}\n"));
}
