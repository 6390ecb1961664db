use chat_recall::batch::{BatchRun, ChatBatch, ChatMessage, DayChunk, PipelineError, Step};
use chat_recall::cache::ChunkCache;
use chat_recall::json::completion_text;
use serde_json::Value;

fn chunk(date: &str) -> DayChunk {
    DayChunk {
        date: date.to_string(),
        messages: vec![ChatMessage {
            date: date.to_string(),
            time: "10:00".to_string(),
            author: "alice".to_string(),
            text: "hello".to_string(),
        }],
    }
}

fn batch(name: &str, start: usize, n: usize) -> ChatBatch {
    ChatBatch { name: name.to_string(), start, chunks: (0..n).map(|i| chunk(&format!("day{}", i))).collect() }
}

fn reply(content: &str) -> Value {
    let body = format!("{{\"choices\":[{{\"message\":{{\"content\":{}}}}}]}}", Value::String(content.to_string()));
    serde_json::from_str(&body).unwrap()
}

/// Drives a run to its end, calling `service` for each chunk the run asks for.
fn process(
    cache: &mut ChunkCache,
    b: &ChatBatch,
    service: &mut dyn FnMut(&DayChunk) -> Result<Value, PipelineError>,
) -> Result<Vec<Value>, PipelineError> {
    let mut run = BatchRun::new(b);
    loop {
        match run.advance(cache) {
            Step::Finished => return Ok(run.results()),
            Step::Analyze(i) => run.complete(cache, service(&b.chunks[i]))?,
        }
    }
}

#[test]
fn end_to_end_alice() {
    let mut cache = ChunkCache::new();
    let b = batch("alice", 5, 2);
    let content = "```json\n{\"summary\":\"ok\"}\n```";
    let mut calls = 0;
    let out = process(&mut cache, &b, &mut |_c| {
        calls += 1;
        Ok(reply(content))
    })
    .unwrap();
    let ok: Value = serde_json::from_str("{\"summary\":\"ok\"}").unwrap();
    assert_eq!(out, vec![ok.clone(), ok.clone()]);
    assert_eq!(calls, 2);
    assert_eq!(cache.lookup("alice", 5), Some(ok.clone()));
    assert_eq!(cache.lookup("alice", 6), Some(ok.clone()));
    assert_eq!(cache.lookup("alice", 4), None);
    let mut again = 0;
    let out2 = process(&mut cache, &b, &mut |_c| {
        again += 1;
        Ok(reply("changed"))
    })
    .unwrap();
    assert_eq!(again, 0);
    assert_eq!(out2, out);
}

#[test]
fn cached_chunk_is_reused_verbatim() {
    let mut cache = ChunkCache::new();
    let cached = Value::String("stored earlier".to_string());
    cache.store("bob", 1, cached.clone());
    let b = batch("bob", 0, 3);
    let mut calls = 0;
    let out = process(&mut cache, &b, &mut |_c| {
        calls += 1;
        Ok(reply("[1]"))
    })
    .unwrap();
    assert_eq!(calls, 2);
    let one: Value = serde_json::from_str("[1]").unwrap();
    assert_eq!(out, vec![one.clone(), cached, one]);
}

#[test]
fn output_follows_chunk_order() {
    for n in 1..=10usize {
        let mut cache = ChunkCache::new();
        let b = batch("carol", 3, n);
        let mut seen: Vec<String> = Vec::new();
        let out = process(&mut cache, &b, &mut |c| {
            seen.push(c.date.clone());
            Ok(reply(&format!("{{\"day\":\"{}\"}}", c.date)))
        })
        .unwrap();
        assert_eq!(out.len(), n);
        for (i, v) in out.iter().enumerate() {
            let expected: Value = serde_json::from_str(&format!("{{\"day\":\"day{}\"}}", i)).unwrap();
            assert_eq!(v, &expected);
            assert_eq!(cache.lookup("carol", 3 + i), Some(expected));
        }
        assert_eq!(seen.len(), n);
    }
}

#[test]
fn failure_keeps_completed_chunks() {
    let mut cache = ChunkCache::new();
    let b = batch("dave", 0, 3);
    let mut calls = 0;
    let r = process(&mut cache, &b, &mut |_c| {
        calls += 1;
        if calls == 2 {
            Err(PipelineError::ExternalService("status 500".to_string()))
        } else {
            Ok(reply("{\"n\":1}"))
        }
    });
    assert!(matches!(r, Err(PipelineError::ExternalService(_))));
    assert_eq!(calls, 2);
    assert!(cache.lookup("dave", 0).is_some());
    assert_eq!(cache.lookup("dave", 1), None);
    assert_eq!(cache.lookup("dave", 2), None);
}

#[test]
fn response_without_completion_fails() {
    let mut cache = ChunkCache::new();
    let b = batch("erin", 0, 1);
    let mut run = BatchRun::new(&b);
    assert!(matches!(run.advance(&cache), Step::Analyze(0)));
    let bad: Value = serde_json::from_str("{\"choices\":[]}").unwrap();
    let r = run.complete(&mut cache, Ok(bad));
    assert!(matches!(r, Err(PipelineError::ExternalService(_))));
    assert!(run.has_failed());
    assert_eq!(cache.lookup("erin", 0), None);
    assert!(run.results().is_empty());
}

#[test]
fn degraded_text_is_stored() {
    let mut cache = ChunkCache::new();
    let b = batch("fay", 2, 1);
    let out = process(&mut cache, &b, &mut |_c| Ok(reply("  not json at all "))).unwrap();
    assert_eq!(out, vec![Value::String("not json at all".to_string())]);
    assert_eq!(cache.lookup("fay", 2), Some(Value::String("not json at all".to_string())));
}

#[test]
fn empty_batch_finishes_at_once() {
    let cache = ChunkCache::new();
    let b = batch("gus", 0, 0);
    let mut run = BatchRun::new(&b);
    assert!(matches!(run.advance(&cache), Step::Finished));
    assert!(run.results().is_empty());
}

#[test]
fn completion_text_reads_nested_content() {
    assert_eq!(completion_text(&reply("abc")), Some("abc".to_string()));
    let no_message: Value = serde_json::from_str("{\"choices\":[{}]}").unwrap();
    assert_eq!(completion_text(&no_message), None);
    let not_text: Value = serde_json::from_str("{\"choices\":[{\"message\":{\"content\":3}}]}").unwrap();
    assert_eq!(completion_text(&not_text), None);
    let not_array: Value = serde_json::from_str("{\"choices\":{}}").unwrap();
    assert_eq!(completion_text(&not_array), None);
}
