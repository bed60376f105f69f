use spicy::document::{decode_document, numbered_listing, split_lines};

#[test]
fn scenario_e_utf16_with_marker_matches_utf8() {
    let text = "Version 4\nSHEET 1 880 680\nSYMATTR Value 10kΩ\n";
    let mut bytes = vec![0xFFu8, 0xFE];
    for u in text.encode_utf16() {
        bytes.extend_from_slice(&u.to_le_bytes());
    }
    assert_eq!(decode_document(&bytes), decode_document(text.as_bytes()));
    assert_eq!(decode_document(&bytes), text);
}

#[test]
fn utf8_is_decoded_as_it_stands() {
    assert_eq!(decode_document("µ and Ω\n".as_bytes()), "µ and Ω\n");
}

#[test]
fn invalid_utf8_without_marker_is_replaced() {
    assert_eq!(decode_document(&[b'a', 0xC3, b'b']), "a\u{FFFD}b");
}

#[test]
fn odd_trailing_byte_after_marker_is_left_out() {
    assert_eq!(decode_document(&[0xFF, 0xFE, b'h', 0, b'i', 0, b'x']), "hi");
}

#[test]
fn unpaired_surrogate_is_replaced() {
    assert_eq!(decode_document(&[0xFF, 0xFE, 0x00, 0xD8, b'a', 0]), "\u{FFFD}a");
}

#[test]
fn numbered_listing_counts_from_one() {
    assert_eq!(numbered_listing("Version 4\nWIRE 0 0 16 0\n"), "1| Version 4\n2| WIRE 0 0 16 0");
    assert_eq!(numbered_listing(""), "");
    let many: String = (0..12).map(|i| format!("L{}\n", i)).collect();
    assert!(numbered_listing(&many).ends_with("\n12| L11"));
}

#[test]
fn numbered_listing_agrees_with_patch_lines() {
    assert_eq!(numbered_listing("a\r\n\nb"), "1| a\r\n2| \n3| b");
}

#[test]
fn split_lines_only_at_line_feeds() {
    let chars: Vec<char> = "a\r\n\nb\n".chars().collect();
    let ls: Vec<String> = split_lines(&chars).iter().map(|l| l.iter().collect()).collect();
    assert_eq!(ls, vec!["a\r", "", "b"]);
}
