use spicy::patch::{apply_edits, patch_document, EditInstruction};

fn edit(start: u64, end: u64, replacement: &str) -> EditInstruction {
    EditInstruction::new(start, end, replacement.to_string())
}

fn lines(text: &str) -> Vec<String> {
    text.lines().map(|l| l.to_string()).collect()
}

#[test]
fn scenario_a_replaces_one_line() {
    let out = apply_edits("A\nB\nC\nD\n", &vec![edit(2, 2, "B2")]);
    assert_eq!(lines(&out), vec!["A", "B2", "C", "D"]);
    assert_eq!(out, "A\nB2\nC\nD\n");
}

#[test]
fn scenario_b_deletes_a_range() {
    let out = apply_edits("A\nB\nC\n", &vec![edit(1, 2, "")]);
    assert_eq!(lines(&out), vec!["C"]);
    assert_eq!(out, "C\n");
}

#[test]
fn scenario_c_inserts_after_a_line() {
    let out = apply_edits("A\nB\nC\n", &vec![edit(2, 2, "B\nB2")]);
    assert_eq!(lines(&out), vec!["A", "B", "B2", "C"]);
}

#[test]
fn empty_batch_keeps_text() {
    assert_eq!(apply_edits("A\nB\n", &vec![]), "A\nB\n");
    assert_eq!(apply_edits("A\nB", &vec![]), "A\nB");
    assert_eq!(apply_edits("", &vec![]), "");
    assert_eq!(apply_edits("\n", &vec![]), "\n");
}

#[test]
fn empty_batch_collapses_final_blank_line() {
    assert_eq!(apply_edits("A\n\n", &vec![]), "A\n");
    assert_eq!(apply_edits("A\n\n\n", &vec![]), "A\n\n");
}

#[test]
fn start_zero_is_dropped_and_others_apply() {
    let out = apply_edits("A\nB\nC\n", &vec![edit(0, 1, "X"), edit(3, 3, "C2")]);
    assert_eq!(out, "A\nB\nC2\n");
}

#[test]
fn end_past_last_line_is_dropped_and_others_apply() {
    let out = apply_edits("A\nB\nC\n", &vec![edit(1, 1, "A2"), edit(2, 9, "Z")]);
    assert_eq!(out, "A2\nB\nC\n");
}

#[test]
fn end_before_start_is_dropped() {
    let out = apply_edits("A\nB\nC\n", &vec![edit(3, 2, "Z")]);
    assert_eq!(out, "A\nB\nC\n");
}

#[test]
fn batch_order_does_not_matter() {
    let a = vec![edit(1, 1, "A2\nA3"), edit(3, 4, ""), edit(5, 5, "E2")];
    let b = vec![edit(5, 5, "E2"), edit(1, 1, "A2\nA3"), edit(3, 4, "")];
    let text = "A\nB\nC\nD\nE\nF\n";
    assert_eq!(apply_edits(text, &a), "A2\nA3\nB\nE2\nF\n");
    assert_eq!(apply_edits(text, &b), apply_edits(text, &a));
}

#[test]
fn trailing_newline_follows_original() {
    assert_eq!(apply_edits("A\nB", &vec![edit(2, 2, "B2\n")]), "A\nB2");
    assert_eq!(apply_edits("A\nB\n", &vec![edit(2, 2, "B2")]), "A\nB2\n");
}

#[test]
fn carriage_returns_are_kept() {
    let out = apply_edits("A\r\nB\r\n", &vec![edit(1, 1, "X")]);
    assert_eq!(out, "X\nB\r\n");
}

#[test]
fn deleting_every_line_leaves_a_line_feed() {
    assert_eq!(apply_edits("A\nB\n", &vec![edit(1, 2, "")]), "\n");
}

#[test]
fn patch_document_decodes_utf16_first() {
    let mut bytes = vec![0xFFu8, 0xFE];
    for u in "A\nB\n".encode_utf16() {
        bytes.extend_from_slice(&u.to_le_bytes());
    }
    assert_eq!(patch_document(&bytes, &vec![edit(2, 2, "C")]), "A\nC\n");
}
