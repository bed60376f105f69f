use spicy::json::Json;
use spicy::decoder::{record_from_json, decode_line, DecodedEvent, DeltaKind, Step, StreamDecoder, TextMode};
use spicy::events::StreamEvent;

fn to_json(v: serde_json::Value) -> Json {
    match v {
        serde_json::Value::Null => Json::Null,
        serde_json::Value::Bool(b) => Json::Bool(b),
        serde_json::Value::Number(n) => Json::Num(n.as_u64()),
        serde_json::Value::String(s) => Json::Str(s),
        serde_json::Value::Array(a) => Json::Array(a.into_iter().map(to_json).collect()),
        serde_json::Value::Object(m) => Json::Object(m.into_iter().map(|(k, x)| (k, to_json(x))).collect()),
    }
}

fn json(text: &str) -> Json {
    to_json(serde_json::from_str(text).unwrap())
}


fn quoted(t: &str) -> String {
    serde_json::Value::String(t.to_string()).to_string()
}

fn text_record(t: &str) -> String {
    format!("data: {{\"type\":\"content_block_delta\",\"delta\":{{\"type\":\"text_delta\",\"text\":{}}}}}\n", quoted(t))
}

fn thinking_record(t: &str) -> String {
    format!("data: {{\"type\":\"content_block_delta\",\"delta\":{{\"type\":\"thinking_delta\",\"thinking\":{}}}}}\n", quoted(t))
}

const STOP: &str = "data: {\"type\":\"message_stop\"}\n";

fn feed_all(d: &mut StreamDecoder, chunks: &[&[u8]]) -> Vec<Step> {
    let mut out = Vec::new();
    for c in chunks {
        out.extend(d.push_chunk(c));
    }
    out.extend(d.end_of_stream());
    out
}

fn texts(steps: &[Step]) -> Vec<String> {
    steps
        .iter()
        .filter_map(|s| match s {
            Step::Emit(StreamEvent::Text { content }) => Some(content.clone()),
            _ => None,
        })
        .collect()
}

fn terminal_count(steps: &[Step]) -> usize {
    steps
        .iter()
        .filter(|s| match s {
            Step::Emit(e) => e.is_terminal(),
            Step::Apply(_) => true,
        })
        .count()
}

#[test]
fn scenario_d_edit_payload_is_withheld() {
    let stream = format!("{}{}", text_record("{\"edits\":[]}"), STOP);
    let mut d = StreamDecoder::new(false);
    let steps = feed_all(&mut d, &[stream.as_bytes()]);
    assert!(texts(&steps).is_empty());
    assert_eq!(steps.len(), 1);
    match &steps[0] {
        Step::Emit(StreamEvent::Done { changes, explanation }) => {
            assert!(changes.is_empty());
            assert_eq!(explanation.as_deref(), Some("Changes applied."));
        }
        _ => panic!("expected Done"),
    }
}

#[test]
fn edit_payload_with_target_asks_to_apply() {
    let payload = "{\"edits\":[{\"start\":2,\"end\":2,\"replacement\":\"B2\"}],\"explanation\":\"Changed B\",\"changes\":[{\"component\":\"R1\",\"filename\":\"a.asc\",\"description\":\"10k to 24k\"},{\"filename\":\"b.asc\"}]}";
    let stream = format!("{}{}{}", text_record(&payload[..10]), text_record(&payload[10..]), STOP);
    let mut d = StreamDecoder::new(true);
    let steps = feed_all(&mut d, &[stream.as_bytes()]);
    assert!(texts(&steps).is_empty());
    assert_eq!(steps.len(), 1);
    match &steps[0] {
        Step::Apply(r) => {
            assert_eq!(r.edits.len(), 1);
            assert_eq!((r.edits[0].start, r.edits[0].end), (2, 2));
            assert_eq!(r.edits[0].replacement, "B2");
            assert_eq!(r.explanation, "Changed B");
            assert_eq!(r.changes.len(), 1);
            assert_eq!(r.changes[0].component.as_deref(), Some("R1"));
            assert_eq!(r.changes[0].filename, "a.asc");
        }
        _ => panic!("expected Apply"),
    }
}

#[test]
fn prose_is_forwarded_live() {
    let stream = format!("{}{}{}{}", thinking_record("hmm"), text_record("The circuit"), text_record(" is a {filter}."), STOP);
    let mut d = StreamDecoder::new(true);
    let steps = feed_all(&mut d, &[stream.as_bytes()]);
    assert_eq!(texts(&steps), vec!["The circuit", " is a {filter}."]);
    match &steps[0] {
        Step::Emit(StreamEvent::Thinking { content }) => assert_eq!(content, "hmm"),
        _ => panic!("expected Thinking first"),
    }
    match steps.last().unwrap() {
        Step::Emit(StreamEvent::Done { changes, explanation }) => {
            assert!(changes.is_empty());
            assert!(explanation.is_none());
        }
        _ => panic!("expected Done"),
    }
    assert_eq!(terminal_count(&steps), 1);
}

#[test]
fn leading_whitespace_then_brace_suppresses() {
    let stream = format!("{}{}{}", text_record("  \n{\"edi"), text_record("ts\": []}"), STOP);
    let mut d = StreamDecoder::new(false);
    let steps = d.push_chunk(stream.as_bytes());
    assert!(texts(&steps).is_empty());
    assert!(d.mode() == TextMode::Suppressed);
}

#[test]
fn whitespace_only_first_delta_locks_passthrough() {
    let stream = format!("{}{}", text_record("  "), text_record("{ not json"));
    let mut d = StreamDecoder::new(false);
    let steps = d.push_chunk(stream.as_bytes());
    assert_eq!(texts(&steps), vec!["  ", "{ not json"]);
    assert!(d.mode() == TextMode::Passthrough);
}

#[test]
fn empty_first_delta_does_not_decide() {
    let stream = format!("{}{}", text_record(""), text_record("{\"edits\":[]}"));
    let mut d = StreamDecoder::new(false);
    let steps = d.push_chunk(stream.as_bytes());
    assert_eq!(texts(&steps), vec![""]);
    assert!(d.mode() == TextMode::Suppressed);
}

#[test]
fn records_split_across_chunks_and_characters() {
    let stream = format!("{}{}", text_record("Ω µ"), STOP);
    let bytes = stream.as_bytes();
    let pieces: Vec<&[u8]> = bytes.chunks(1).collect();
    let mut d = StreamDecoder::new(false);
    let steps = feed_all(&mut d, &pieces);
    assert_eq!(texts(&steps), vec!["Ω µ"]);
    assert_eq!(terminal_count(&steps), 1);
}

#[test]
fn malformed_and_foreign_lines_are_skipped() {
    let stream = format!(": keepalive\nevent: ping\ndata: {{not json\ndata: [DONE]\ndata: {{\"type\":\"ping\"}}\n{}", text_record("ok"));
    let mut d = StreamDecoder::new(false);
    let steps = d.push_chunk(stream.as_bytes());
    assert_eq!(texts(&steps), vec!["ok"]);
    assert!(!d.is_done());
}

#[test]
fn upstream_error_ends_the_request() {
    let stream = format!("{}data: {{\"type\":\"error\",\"error\":{{\"message\":\"Overloaded\"}}}}\n{}{}", text_record("par"), text_record("tial"), STOP);
    let mut d = StreamDecoder::new(false);
    let steps = feed_all(&mut d, &[stream.as_bytes()]);
    assert_eq!(texts(&steps), vec!["par"]);
    match steps.last().unwrap() {
        Step::Emit(StreamEvent::Error { message }) => assert_eq!(message, "Overloaded"),
        _ => panic!("expected Error"),
    }
    assert_eq!(terminal_count(&steps), 1);
}

#[test]
fn upstream_error_without_message() {
    let mut d = StreamDecoder::new(false);
    let steps = d.push_chunk(b"data: {\"type\":\"error\"}\n");
    match &steps[0] {
        Step::Emit(StreamEvent::Error { message }) => assert_eq!(message, "Unknown API error"),
        _ => panic!("expected Error"),
    }
}

#[test]
fn stream_closed_without_stop_is_finalized() {
    let stream = format!("{}data: {{\"type\":\"message_stop\"}}", text_record("{\"edits\":[],\"explanation\":\"x\"}"));
    let mut d = StreamDecoder::new(false);
    let steps = feed_all(&mut d, &[stream.as_bytes()]);
    assert_eq!(steps.len(), 1);
    match &steps[0] {
        Step::Emit(StreamEvent::Done { explanation, .. }) => assert_eq!(explanation.as_deref(), Some("x")),
        _ => panic!("expected Done"),
    }
}

#[test]
fn stream_closed_silently_still_ends_once() {
    let mut d = StreamDecoder::new(false);
    let steps = feed_all(&mut d, &[text_record("Hello").as_bytes()]);
    assert_eq!(texts(&steps), vec!["Hello"]);
    assert_eq!(terminal_count(&steps), 1);
    assert!(d.is_done());
}

#[test]
fn nothing_follows_the_terminal_step() {
    let stream = format!("{}{}{}", STOP, text_record("late"), STOP);
    let mut d = StreamDecoder::new(false);
    let mut steps = d.push_chunk(stream.as_bytes());
    steps.extend(d.push_chunk(text_record("later").as_bytes()));
    steps.extend(d.transport_failed("reset"));
    steps.extend(d.end_of_stream());
    assert_eq!(steps.len(), 1);
    assert_eq!(terminal_count(&steps), 1);
}

#[test]
fn transport_failure_ends_with_error() {
    let mut d = StreamDecoder::new(false);
    let mut steps = d.push_chunk(text_record("a").as_bytes());
    steps.extend(d.transport_failed("connection reset"));
    steps.extend(d.end_of_stream());
    match steps.last().unwrap() {
        Step::Emit(StreamEvent::Error { message }) => assert_eq!(message, "Stream error: connection reset"),
        _ => panic!("expected Error"),
    }
    assert_eq!(terminal_count(&steps), 1);
}

#[test]
fn edit_object_after_prose_is_found() {
    let stream = format!("{}{}{}", text_record("Plan: change R1.\n"), text_record("{\"edits\":[{\"start\":1,\"end\":1,\"replacement\":\"x\"}]}"), STOP);
    let mut d = StreamDecoder::new(true);
    let steps = feed_all(&mut d, &[stream.as_bytes()]);
    assert_eq!(texts(&steps).len(), 2);
    match steps.last().unwrap() {
        Step::Apply(r) => {
            assert_eq!(r.edits.len(), 1);
            assert_eq!(r.explanation, "Changes applied.");
        }
        _ => panic!("expected Apply"),
    }
}

#[test]
fn braced_text_that_is_not_an_edit_ends_as_prose() {
    let stream = format!("{}{}", text_record("{\"answer\": 42}"), STOP);
    let mut d = StreamDecoder::new(true);
    let steps = feed_all(&mut d, &[stream.as_bytes()]);
    assert!(texts(&steps).is_empty());
    match &steps[0] {
        Step::Emit(StreamEvent::Done { changes, explanation }) => {
            assert!(changes.is_empty());
            assert!(explanation.is_none());
        }
        _ => panic!("expected Done"),
    }
}

#[test]
fn accumulated_text_gathers_all_deltas() {
    let stream = format!("{}{}", text_record("ab"), text_record("cd"));
    let mut d = StreamDecoder::new(false);
    let _ = d.push_chunk(stream.as_bytes());
    assert_eq!(d.accumulated(), "abcd");
}

#[test]
fn decode_line_reads_records() {
    let line: Vec<char> = "data: {\"type\":\"content_block_delta\",\"delta\":{\"type\":\"thinking_delta\",\"thinking\":\"t\"}}".chars().collect();
    match decode_line(&line) {
        Some(DecodedEvent::ContentDelta { kind, text }) => {
            assert!(kind == DeltaKind::Thinking);
            assert_eq!(text, "t");
        }
        _ => panic!("expected a thinking delta"),
    }
    let stop: Vec<char> = "data: {\"type\":\"message_stop\"}".chars().collect();
    assert!(matches!(decode_line(&stop), Some(DecodedEvent::MessageStop)));
    let bare: Vec<char> = "{\"type\":\"message_stop\"}".chars().collect();
    assert!(decode_line(&bare).is_none());
}

#[test]
fn record_from_json_on_given_values() {
    let v = json("{\"type\":\"content_block_delta\",\"delta\":{\"type\":\"text_delta\",\"text\":\"x\"}}");
    match record_from_json(&v) {
        Some(DecodedEvent::ContentDelta { kind, text }) => {
            assert!(kind == DeltaKind::Text);
            assert_eq!(text, "x");
        }
        _ => panic!("expected a text delta"),
    }
    let other = json("{\"type\":\"content_block_delta\",\"delta\":{\"type\":\"input_json_delta\"}}");
    assert!(record_from_json(&other).is_none());
    let err = json("{\"type\":\"error\",\"error\":{\"message\":\"m\"}}");
    assert!(matches!(record_from_json(&err), Some(DecodedEvent::UpstreamError { message }) if message == "m"));
}
