//! The message sent upstream: the user's text, preceded by the active
//! document's numbered listing, after the earlier turns of the conversation.
use vstd::prelude::*;
use crate::text::{chars_of, string_of, push_all};
use crate::document::{numbered, numbered_listing};
use crate::json::{Json, member, str_value};

verus! {

/// The user's turn: with an active document, `Current file: <name>`, a blank
/// line, the numbered listing, a blank line, then the message.
pub open spec fn user_text(file: Option<(Seq<char>, Seq<char>)>, message: Seq<char>) -> Seq<char> {
    match file {
        Some((name, content)) => "Current file: "@ + name + "\n\n"@ + numbered(content) + "\n\n"@ + message,
        None => message,
    }
}

pub fn user_content(filename: Option<&str>, content: &str, message: &str) -> (r: String)
    ensures
        r@ == user_text(
            match filename {
                Some(f) => Some((f@, content@)),
                None => None,
            },
            message@,
        ),
{
    let mut out: Vec<char> = Vec::new();
    match filename {
        Some(f) => {
            let head = chars_of("Current file: ");
            push_all(&mut out, head.as_slice());
            let name = chars_of(f);
            push_all(&mut out, name.as_slice());
            let gap = chars_of("\n\n");
            push_all(&mut out, gap.as_slice());
            let listing = numbered_listing(content);
            let lc = chars_of(listing.as_str());
            push_all(&mut out, lc.as_slice());
            push_all(&mut out, gap.as_slice());
        },
        None => {},
    }
    let m = chars_of(message);
    push_all(&mut out, m.as_slice());
    proof {
        if filename.is_none() {
            assert(out@ =~= message@);
        }
    }
    string_of(out.as_slice())
}

/// One turn of the conversation.
pub struct ChatMessage {
    pub role: String,
    pub content: String,
}

/// A turn read from an object with string `role` and `content`.
pub open spec fn turn_of(v: Json) -> Option<(Seq<char>, Seq<char>)> {
    match (str_value(member(v, "role"@)), str_value(member(v, "content"@))) {
        (Some(r), Some(c)) => Some((r, c)),
        _ => None,
    }
}

/// The turns among `items`, in order; the others are skipped.
pub open spec fn turns_from(items: Seq<Json>) -> Seq<(Seq<char>, Seq<char>)>
    decreases items.len(),
{
    if items.len() == 0 {
        Seq::empty()
    } else {
        let init = turns_from(items.drop_last());
        match turn_of(items.last()) {
            Some(t) => init.push(t),
            None => init,
        }
    }
}

pub open spec fn turns_view(v: Seq<ChatMessage>) -> Seq<(Seq<char>, Seq<char>)> {
    v.map_values(|m: ChatMessage| (m.role@, m.content@))
}

/// The conversation to send: the earlier turns that have a role and a
/// content, then the user's new turn.
pub fn conversation(history: &Vec<Json>, user_content: String) -> (r: Vec<ChatMessage>)
    ensures
        turns_view(r@) == turns_from(history@).push(("user"@, user_content@)),
{
    let mut out: Vec<ChatMessage> = Vec::new();
    let mut i: usize = 0;
    assert(history@.subrange(0, 0) =~= Seq::<Json>::empty());
    assert(turns_view(out@) =~= Seq::<(Seq<char>, Seq<char>)>::empty());
    while i < history.len()
        invariant
            i <= history@.len(),
            turns_view(out@) == turns_from(history@.subrange(0, i as int)),
        decreases history@.len() - i,
    {
        let ghost pre = history@.subrange(0, i as int);
        assert(history@.subrange(0, i + 1).drop_last() =~= pre);
        let item = &history[i];
        match (item.get("role").as_str(), item.get("content").as_str()) {
            (Some(role), Some(content)) => {
                out.push(ChatMessage { role: role.clone(), content: content.clone() });
                assert(turns_view(out@) =~= turns_from(pre).push((role@, content@)));
            },
            _ => {},
        }
        i = i + 1;
    }
    assert(history@.subrange(0, history@.len() as int) =~= history@);
    let ghost before = turns_view(out@);
    out.push(ChatMessage { role: "user".to_owned(), content: user_content });
    assert(turns_view(out@) =~= before.push(("user"@, user_content@)));
    out
}

} // verus!
