use forum_threads::record::{decode_record, encode_record, ThreadPost};

fn sample() -> ThreadPost {
    ThreadPost {
        length: 42,
        raw_content: "line one\nline \"two\" \\ with\ttabs".to_string(),
        thread_id: "t-1".to_string(),
        source: "forum".to_string(),
    }
}

#[test]
fn record_roundtrip_exact() {
    let p = sample();
    let encoded = encode_record(&p);
    let decoded = decode_record(&encoded).unwrap();
    assert_eq!(decoded.length, p.length);
    assert_eq!(decoded.raw_content, p.raw_content);
    assert_eq!(decoded.thread_id, p.thread_id);
    assert_eq!(decoded.source, p.source);
}

#[test]
fn record_roundtrip_control_characters() {
    let p = ThreadPost {
        length: 0,
        raw_content: "a\u{1}b\u{1f}c\r\u{8}\u{c}".to_string(),
        thread_id: "".to_string(),
        source: "s".to_string(),
    };
    let encoded = encode_record(&p);
    let decoded = decode_record(&encoded).unwrap();
    assert_eq!(decoded.raw_content, p.raw_content);
    assert_eq!(decoded.thread_id, p.thread_id);
}

#[test]
fn record_encode_exact_line() {
    let p = ThreadPost {
        length: 7,
        raw_content: "A\nB".to_string(),
        thread_id: "1".to_string(),
        source: "f".to_string(),
    };
    assert_eq!(
        encode_record(&p),
        "{\"length\":7,\"raw_content\":\"A\\nB\",\"thread_id\":\"1\",\"source\":\"f\"}"
    );
}

#[test]
fn record_encode_is_valid_json() {
    let p = sample();
    let encoded = encode_record(&p);
    let v: serde_json::Value = serde_json::from_str(&encoded).unwrap();
    assert_eq!(v.get("length").unwrap().as_u64().unwrap(), 42);
    assert_eq!(
        v.get("raw_content").unwrap().as_str().unwrap(),
        p.raw_content
    );
    assert_eq!(v.get("thread_id").unwrap().as_str().unwrap(), p.thread_id);
    assert_eq!(v.get("source").unwrap().as_str().unwrap(), p.source);
}

#[test]
fn record_decode_rejects_malformed() {
    assert!(decode_record("").is_none());
    assert!(decode_record("{}").is_none());
    assert!(decode_record("{\"length\":x}").is_none());
    assert!(decode_record("{\"length\":12").is_none());
    assert!(decode_record(
        "{\"length\":1,\"raw_content\":\"a\",\"thread_id\":\"b\",\"source\":\"c\"} "
    )
    .is_none());
    assert!(decode_record(
        "{\"length\":1,\"raw_content\":\"a\",\"source\":\"c\",\"thread_id\":\"b\"}"
    )
    .is_none());
    assert!(decode_record(
        "{\"length\":1,\"raw_content\":\"a\\x\",\"thread_id\":\"b\",\"source\":\"c\"}"
    )
    .is_none());
}

#[test]
fn record_decode_accepts_own_framing() {
    let line = "{\"length\":3,\"raw_content\":\"x y z\",\"thread_id\":\"id9\",\"source\":\"lab\"}";
    let decoded = decode_record(line).unwrap();
    assert_eq!(decoded.length, 3);
    assert_eq!(decoded.raw_content, "x y z");
    assert_eq!(decoded.thread_id, "id9");
    assert_eq!(decoded.source, "lab");
}
