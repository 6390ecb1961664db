use chat_recall::batch::PipelineError;
use chat_recall::cache::{decode_record, ChunkCache};
use serde_json::Value;

fn text(s: &str) -> Value {
    Value::String(s.to_string())
}

#[test]
fn stored_record_is_found() {
    let mut c = ChunkCache::new();
    assert_eq!(c.lookup("alice", 3), None);
    c.store("alice", 3, text("x"));
    assert_eq!(c.lookup("alice", 3), Some(text("x")));
    assert_eq!(c.lookup("alice", 2), None);
    assert_eq!(c.lookup("bob", 3), None);
}

#[test]
fn store_overwrites_same_key() {
    let mut c = ChunkCache::new();
    c.store("alice", 0, text("x"));
    c.store("alice", 0, text("y"));
    assert_eq!(c.lookup("alice", 0), Some(text("y")));
}

#[test]
fn listing_is_by_ascending_index() {
    let mut c = ChunkCache::new();
    c.store("alice", 7, text("seven"));
    c.store("alice", 2, text("two"));
    c.store("alice", 4, text("four"));
    c.store("bob", 3, text("other"));
    assert_eq!(c.list_ordered("alice"), vec![text("two"), text("four"), text("seven")]);
    assert_eq!(c.list_ordered("carol"), Vec::<Value>::new());
}

#[test]
fn purge_isolates_conversations() {
    let mut c = ChunkCache::new();
    c.store("alice", 0, text("a0"));
    c.store("alice", 1, text("a1"));
    c.store("bob", 0, text("b0"));
    c.purge("alice");
    assert_eq!(c.lookup("alice", 0), None);
    assert_eq!(c.lookup("alice", 1), None);
    assert_eq!(c.list_ordered("alice"), Vec::<Value>::new());
    assert_eq!(c.lookup("bob", 0), Some(text("b0")));
    c.purge("alice");
    c.purge("nobody");
    assert_eq!(c.lookup("bob", 0), Some(text("b0")));
}

#[test]
fn sanitized_name_resolves_consistently() {
    let mut c = ChunkCache::new();
    c.store("a/b", 1, text("v"));
    assert_eq!(c.lookup("a/b", 1), Some(text("v")));
    assert_eq!(c.list_ordered("a/b"), vec![text("v")]);
    assert_eq!(c.lookup("a_b", 1), None);
    c.purge("a/b");
    assert_eq!(c.lookup("a/b", 1), None);
    assert_eq!(c.list_ordered("a/b"), Vec::<Value>::new());
}

#[test]
fn record_text_decodes() {
    let v = decode_record("{\n  \"a\": [1, 2]\n}").unwrap();
    assert_eq!(v, serde_json::from_str::<Value>("{\"a\":[1,2]}").unwrap());
    assert!(matches!(decode_record("{oops"), Err(PipelineError::Storage(_))));
}

#[test]
fn purge_leaves_lookalike_names() {
    let mut c = ChunkCache::new();
    c.store("a_b", 0, text("kept"));
    c.purge("a/b");
    assert_eq!(c.lookup("a_b", 0), Some(text("kept")));
    c.store("a/b", 0, text("other"));
    assert_eq!(c.list_ordered("a_b"), vec![text("kept")]);
    assert_eq!(c.list_ordered("a/b"), vec![text("other")]);
}

#[test]
fn large_index_is_stored_sparsely() {
    let mut c = ChunkCache::new();
    c.store("big", 4_000_000_000, text("far"));
    c.store("big", 1, text("near"));
    assert_eq!(c.lookup("big", 4_000_000_000), Some(text("far")));
    assert_eq!(c.list_ordered("big"), vec![text("near"), text("far")]);
}
