use llm_stream::decoder::StreamDecoder;
use llm_stream::session::decode_all;

fn delta_record(content: &str) -> Vec<u8> {
    let mut v = Vec::new();
    v.extend_from_slice(b"data: {\"choices\":[{\"delta\":{\"content\":\"");
    v.extend_from_slice(content.as_bytes());
    v.extend_from_slice(b"\"}}]}\n\n");
    v
}

#[test]
fn two_records_then_done() {
    let mut d = StreamDecoder::new(String::from("s1"));
    let events = d.feed(b"data: {\"choices\":[{\"delta\":{\"content\":\"Hel\"}}]}\n\n");
    assert_eq!(events.len(), 1);
    assert_eq!(events[0].token, "Hel");
    assert!(events[0].is_first);
    assert_eq!(events[0].session_id, "s1");
    let events = d.feed(
        b"data: {\"choices\":[{\"delta\":{\"content\":\"lo\"}}]}\n\ndata: [DONE]\n\n",
    );
    assert_eq!(events.len(), 1);
    assert_eq!(events[0].token, "lo");
    assert!(!events[0].is_first);
    let (tail, content) = d.end();
    assert_eq!(tail.len(), 0);
    assert_eq!(content, "Hello");
}

#[test]
fn done_sentinel_yields_no_token() {
    let mut d = StreamDecoder::new(String::from("s"));
    let events = d.feed(b"data: [DONE]\n\n");
    assert_eq!(events.len(), 0);
    let events = d.feed(b"data:   [DONE] \n\n");
    assert_eq!(events.len(), 0);
    let (tail, content) = d.end();
    assert_eq!(tail.len(), 0);
    assert_eq!(content, "");
}

#[test]
fn invalid_json_is_skipped() {
    let mut d = StreamDecoder::new(String::from("s"));
    let events = d.feed(b"data: {not json at all\n\n");
    assert_eq!(events.len(), 0);
    let events = d.feed(&delta_record("ok"));
    assert_eq!(events.len(), 1);
    assert_eq!(events[0].token, "ok");
    assert!(events[0].is_first);
    let (_, content) = d.end();
    assert_eq!(content, "ok");
}

#[test]
fn missing_prefix_is_skipped() {
    let mut d = StreamDecoder::new(String::from("s"));
    let events = d.feed(b"event: ping\n\n: comment\n\n");
    assert_eq!(events.len(), 0);
    let (_, content) = d.end();
    assert_eq!(content, "");
}

#[test]
fn role_only_delta_yields_no_token() {
    let mut d = StreamDecoder::new(String::from("s"));
    let events = d.feed(b"data: {\"choices\":[{\"delta\":{\"role\":\"assistant\"}}]}\n\n");
    assert_eq!(events.len(), 0);
    let events = d.feed(b"data: {\"choices\":[{\"delta\":{\"content\":null}}]}\n\n");
    assert_eq!(events.len(), 0);
    let (_, content) = d.end();
    assert_eq!(content, "");
}

#[test]
fn chunk_boundaries_do_not_matter() {
    let mut stream = Vec::new();
    stream.extend_from_slice(&delta_record("Hel"));
    stream.extend_from_slice(&delta_record("lo,"));
    stream.extend_from_slice(&delta_record(" world"));
    stream.extend_from_slice(b"data: [DONE]\n\n");

    let mut whole = StreamDecoder::new(String::from("a"));
    let mut whole_tokens = Vec::new();
    for e in whole.feed(&stream) {
        whole_tokens.push(e.token);
    }
    let (tail, whole_content) = whole.end();
    assert_eq!(tail.len(), 0);

    let mut bytewise = StreamDecoder::new(String::from("b"));
    let mut byte_tokens = Vec::new();
    for i in 0..stream.len() {
        for e in bytewise.feed(&stream[i..i + 1]) {
            byte_tokens.push(e.token);
        }
    }
    let (tail, byte_content) = bytewise.end();
    assert_eq!(tail.len(), 0);

    assert_eq!(whole_content, "Hello, world");
    assert_eq!(byte_content, whole_content);
    assert_eq!(byte_tokens, whole_tokens);
}

#[test]
fn split_inside_delimiter() {
    let mut d = StreamDecoder::new(String::from("s"));
    let mut rec = delta_record("Hi");
    let second_half = rec.split_off(rec.len() - 1);
    let events = d.feed(&rec);
    assert_eq!(events.len(), 0);
    let events = d.feed(&second_half);
    assert_eq!(events.len(), 1);
    assert_eq!(events[0].token, "Hi");
    let (_, content) = d.end();
    assert_eq!(content, "Hi");
}

#[test]
fn only_first_event_carries_first_flag() {
    let mut d = StreamDecoder::new(String::from("s"));
    let mut flags = Vec::new();
    for e in d.feed(&delta_record("a")) {
        flags.push(e.is_first);
    }
    let mut rest = Vec::new();
    rest.extend_from_slice(&delta_record("b"));
    rest.extend_from_slice(&delta_record("c"));
    for e in d.feed(&rest) {
        flags.push(e.is_first);
    }
    assert_eq!(flags, vec![true, false, false]);
}

#[test]
fn empty_delta_emits_unflagged_empty_token() {
    let mut d = StreamDecoder::new(String::from("s"));
    let events = d.feed(&delta_record(""));
    assert_eq!(events.len(), 1);
    assert_eq!(events[0].token, "");
    assert!(!events[0].is_first);
    let events = d.feed(&delta_record("x"));
    assert_eq!(events.len(), 1);
    assert_eq!(events[0].token, "x");
    assert!(events[0].is_first);
    let (_, content) = d.end();
    assert_eq!(content, "x");
}

#[test]
fn trailing_record_is_flushed_at_end() {
    let mut d = StreamDecoder::new(String::from("s"));
    let events = d.feed(b"data: {\"choices\":[{\"delta\":{\"content\":\"tail\"}}]}");
    assert_eq!(events.len(), 0);
    let (tail, content) = d.end();
    assert_eq!(tail.len(), 1);
    assert_eq!(tail[0].token, "tail");
    assert!(tail[0].is_first);
    assert_eq!(content, "tail");
}

#[test]
fn empty_session_returns_empty_content() {
    let d = StreamDecoder::new(String::from("s"));
    let (tail, content) = d.end();
    assert_eq!(tail.len(), 0);
    assert_eq!(content, "");
}

#[test]
fn start_assigns_uuid_shaped_session_id() {
    let d = StreamDecoder::start();
    assert_eq!(d.session_id.len(), 36);
    let other = StreamDecoder::start();
    assert_ne!(d.session_id, other.session_id);
}

#[test]
fn decode_all_matches_incremental_feeding() {
    let chunks = vec![
        delta_record("Hel"),
        b"data: not json\n\ndata: {\"choices\":[{\"delta\"".to_vec(),
        b":{\"content\":\"lo\"}}]}\n\ndata: [DONE]\n\n".to_vec(),
    ];
    let (events, content) = decode_all(String::from("s"), &chunks);
    assert_eq!(content, "Hello");
    assert_eq!(events.len(), 2);
    assert_eq!(events[0].token, "Hel");
    assert!(events[0].is_first);
    assert_eq!(events[1].token, "lo");
    assert!(!events[1].is_first);

    let mut d = StreamDecoder::new(String::from("s"));
    let mut tokens = Vec::new();
    for c in &chunks {
        for e in d.feed(c) {
            tokens.push(e.token);
        }
    }
    let (tail, incremental) = d.end();
    assert_eq!(tail.len(), 0);
    assert_eq!(incremental, content);
    assert_eq!(tokens.len(), events.len());
}
