use spicy::json::Json;
use spicy::payload::{edit_outcome, edit_response, resolve_response, EditResponse};
use spicy::events::StreamEvent;
use spicy::request::{conversation, user_content};
use spicy::state::{has_api_key, request_settings, set_api_key, set_working_directory, AppState};

fn to_json(v: serde_json::Value) -> Json {
    match v {
        serde_json::Value::Null => Json::Null,
        serde_json::Value::Bool(b) => Json::Bool(b),
        serde_json::Value::Number(n) => Json::Num(n.as_u64()),
        serde_json::Value::String(s) => Json::Str(s),
        serde_json::Value::Array(a) => Json::Array(a.into_iter().map(to_json).collect()),
        serde_json::Value::Object(m) => Json::Object(m.into_iter().map(|(k, x)| (k, to_json(x))).collect()),
    }
}

fn json(text: &str) -> Json {
    to_json(serde_json::from_str(text).unwrap())
}


#[test]
fn settings_need_a_key_then_a_directory() {
    let mut st = AppState::new(String::new());
    assert!(!has_api_key(&st));
    assert_eq!(request_settings(&mut st, None), Err("ANTHROPIC_API_KEY not set. Please set it as an environment variable.".to_string()));
    assert_eq!(request_settings(&mut st, Some("k1".to_string())), Err("No working directory set".to_string()));
    assert_eq!(st.api_key, "k1");
    set_working_directory(&mut st, "/w".to_string());
    assert_eq!(request_settings(&mut st, Some("other".to_string())), Ok(("k1".to_string(), "/w".to_string())));
    set_api_key(&mut st, "k2".to_string());
    assert!(has_api_key(&st));
    assert_eq!(st.working_directory.as_deref(), Some("/w"));
}

#[test]
fn user_content_with_and_without_file() {
    assert_eq!(user_content(None, "", "hi"), "hi");
    assert_eq!(
        user_content(Some("amp.asc"), "Version 4\nSHEET 1 880 680\n", "Explain"),
        "Current file: amp.asc\n\n1| Version 4\n2| SHEET 1 880 680\n\nExplain"
    );
}

#[test]
fn conversation_keeps_complete_turns() {
    let history: Vec<Json> = vec![
        json("{\"role\":\"user\",\"content\":\"a\"}"),
        json("{\"role\":\"assistant\"}"),
        json("{\"role\":\"assistant\",\"content\":\"b\"}"),
    ];
    let turns = conversation(&history, "c".to_string());
    let pairs: Vec<(&str, &str)> = turns.iter().map(|m| (m.role.as_str(), m.content.as_str())).collect();
    assert_eq!(pairs, vec![("user", "a"), ("assistant", "b"), ("user", "c")]);
}

#[test]
fn edit_bounds_must_be_unsigned_integers() {
    let acc: Vec<char> = "{\"edits\":[{\"start\":1.0,\"end\":2,\"replacement\":\"a\"},{\"start\":-1,\"end\":2,\"replacement\":\"b\"},{\"start\":7,\"end\":9,\"replacement\":\"c\"}]}".chars().collect();
    let r = resolve_response(&acc).unwrap();
    assert_eq!(r.edits.len(), 1);
    assert_eq!((r.edits[0].start, r.edits[0].end), (7, 9));
    let v = json("{\"n\": 7}");
    assert_eq!(v.get("n").as_u64(), Some(7));
    assert!(matches!(v.get("missing"), Json::Null));
    let garbage: Vec<char> = "{oops".chars().collect();
    assert!(resolve_response(&garbage).is_none());
}

#[test]
fn edit_response_skips_incomplete_entries() {
    let v = json("{\"edits\":[{\"start\":1,\"end\":2,\"replacement\":\"x\"},{\"start\":\"1\",\"end\":2,\"replacement\":\"y\"},{\"start\":3,\"end\":3}],\"changes\":\"none\"}");
    let r = edit_response(&v).unwrap();
    assert_eq!(r.edits.len(), 1);
    assert_eq!(r.explanation, "Changes applied.");
    assert!(r.changes.is_empty());
    assert!(edit_response(&json("{\"explanation\":\"x\"}")).is_none());
}

#[test]
fn resolve_finds_payload_after_prose() {
    let acc: Vec<char> = "Sure.\n{\"edits\":[],\"explanation\":\"e\"}".chars().collect();
    assert_eq!(resolve_response(&acc).unwrap().explanation, "e");
    let prose: Vec<char> = "no edits here".chars().collect();
    assert!(resolve_response(&prose).is_none());
}

#[test]
fn edit_outcome_reports_write_result() {
    let r = EditResponse { edits: vec![], explanation: "done".to_string(), changes: vec![] };
    match edit_outcome(r, Ok(())) {
        StreamEvent::Done { explanation, .. } => assert_eq!(explanation.as_deref(), Some("done")),
        _ => panic!("expected Done"),
    }
    let r = EditResponse { edits: vec![], explanation: "done".to_string(), changes: vec![] };
    match edit_outcome(r, Err("Failed to write file: denied".to_string())) {
        StreamEvent::Error { message } => assert_eq!(message, "Failed to write file: denied"),
        _ => panic!("expected Error"),
    }
}
