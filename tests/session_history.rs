use spicy::listing::sorted_names;
use spicy::history::{chats_dir, sanitize_filename, timestamp_from_millis, timestamp_now, ChatSessionMeta, SessionIndex};

fn meta(id: &str, updated: &str) -> ChatSessionMeta {
    ChatSessionMeta {
        id: id.to_string(),
        title: format!("t{}", id),
        created_at: "1".to_string(),
        updated_at: updated.to_string(),
        message_count: 0,
    }
}

#[test]
fn sanitize_replaces_unsafe_characters() {
    assert_eq!(sanitize_filename("a/b\\c:d*e?f\"g<h>i|j k.asc"), "a_b_c_d_e_f_g_h_i_j_k.asc");
    assert_eq!(sanitize_filename("Ωµ.asc"), "Ωµ.asc");
}

#[test]
fn chats_dir_components() {
    assert_eq!(chats_dir("/w", "sub/amp 1.asc"), vec!["/w", ".spicy", "chats", "sub_amp_1.asc"]);
}

#[test]
fn timestamps_are_decimal_millis() {
    assert_eq!(timestamp_from_millis(0), "0");
    assert_eq!(timestamp_from_millis(1700000000123), "1700000000123");
    let now = timestamp_now();
    assert!(!now.is_empty() && now.chars().all(|c| c.is_ascii_digit()));
    assert!(now.parse::<u64>().unwrap() > 1_600_000_000_000);
}

#[test]
fn saving_a_new_session_puts_it_first() {
    let mut index = SessionIndex { sessions: vec![meta("a", "5")] };
    index.record_save("b", "Bee", "9", 3);
    assert_eq!(index.sessions.len(), 2);
    assert_eq!(index.sessions[0].id, "b");
    assert_eq!(index.sessions[0].created_at, "9");
    assert_eq!(index.sessions[0].updated_at, "9");
    assert_eq!(index.sessions[0].message_count, 3);
}

#[test]
fn saving_an_existing_session_updates_it() {
    let mut index = SessionIndex { sessions: vec![meta("a", "5"), meta("b", "6")] };
    index.record_save("b", "New", "10", 7);
    assert_eq!(index.sessions.len(), 2);
    assert_eq!(index.sessions[1].title, "New");
    assert_eq!(index.sessions[1].created_at, "1");
    assert_eq!(index.sessions[1].updated_at, "10");
    assert_eq!(index.sessions[1].message_count, 7);
}

#[test]
fn removing_a_session_keeps_the_rest_in_order() {
    let mut index = SessionIndex { sessions: vec![meta("a", "1"), meta("b", "2"), meta("a", "3"), meta("c", "4")] };
    index.remove_session("a");
    let ids: Vec<&str> = index.sessions.iter().map(|m| m.id.as_str()).collect();
    assert_eq!(ids, vec!["b", "c"]);
}

#[test]
fn sorting_puts_most_recent_first_and_is_stable() {
    let mut index = SessionIndex {
        sessions: vec![meta("a", "100"), meta("b", "300"), meta("c", "200"), meta("d", "300"), meta("e", "")],
    };
    index.sort_by_recent();
    let ids: Vec<&str> = index.sessions.iter().map(|m| m.id.as_str()).collect();
    assert_eq!(ids, vec!["b", "d", "c", "a", "e"]);
    let mut empty = SessionIndex::new();
    empty.sort_by_recent();
    assert!(empty.sessions.is_empty());
}

#[test]
fn file_names_are_sorted_by_string_order() {
    let names: Vec<String> = ["b.asc", "a/z.asc", "B.asc", "a.asc", "Ω.asc", "a.asc"].iter().map(|s| s.to_string()).collect();
    let mut expected = names.clone();
    expected.sort();
    assert_eq!(sorted_names(&names), expected);
    assert!(sorted_names(&Vec::new()).is_empty());
}
