//! The structured edit payload: an object with an `edits` array, an optional
//! `explanation` and optional `changes`, read out of the accumulated response.
use vstd::prelude::*;
use crate::json::{Json, member, str_value, u64_value, parsed_json, parse_json};
use crate::patch::{Edit, EditInstruction, edits_view};
use crate::events::{FileChange, ChangeModel, changes_view, StreamEvent, EventModel};
use crate::text::string_of;

verus! {

/// A structured edit response.
pub struct EditResponse {
    pub edits: Vec<EditInstruction>,
    pub explanation: String,
    pub changes: Vec<FileChange>,
}

pub struct ResponseModel {
    pub edits: Seq<Edit>,
    pub explanation: Seq<char>,
    pub changes: Seq<ChangeModel>,
}

impl View for EditResponse {
    type V = ResponseModel;

    open spec fn view(&self) -> ResponseModel {
        ResponseModel {
            edits: edits_view(self.edits@),
            explanation: self.explanation@,
            changes: changes_view(self.changes@),
        }
    }
}

/// An instruction read from an object with unsigned integers `start` and `end`
/// and a string `replacement`; anything else is no instruction.
pub open spec fn edit_of(v: Json) -> Option<Edit> {
    match (u64_value(member(v, "start"@)), u64_value(member(v, "end"@)), str_value(member(v, "replacement"@))) {
        (Some(s), Some(e), Some(t)) => Some(Edit { start: s, end: e, text: t }),
        _ => None,
    }
}

/// The instructions among `items`, in order; the others are skipped.
pub open spec fn edits_from(items: Seq<Json>) -> Seq<Edit>
    decreases items.len(),
{
    if items.len() == 0 {
        Seq::empty()
    } else {
        let init = edits_from(items.drop_last());
        match edit_of(items.last()) {
            Some(e) => init.push(e),
            None => init,
        }
    }
}

/// A change note read from an object with strings `filename` and
/// `description`, and an optional string `component`.
pub open spec fn change_of(v: Json) -> Option<ChangeModel> {
    match (str_value(member(v, "filename"@)), str_value(member(v, "description"@))) {
        (Some(f), Some(d)) => Some(ChangeModel { component: str_value(member(v, "component"@)), filename: f, description: d }),
        _ => None,
    }
}

/// The change notes among `items`, in order; the others are skipped.
pub open spec fn changes_from(items: Seq<Json>) -> Seq<ChangeModel>
    decreases items.len(),
{
    if items.len() == 0 {
        Seq::empty()
    } else {
        let init = changes_from(items.drop_last());
        match change_of(items.last()) {
            Some(c) => init.push(c),
            None => init,
        }
    }
}

pub open spec fn default_explanation() -> Seq<char> {
    "Changes applied."@
}

/// The edit response that a JSON value holds: one exactly when it has an `edits` array.
pub open spec fn response_of(v: Json) -> Option<ResponseModel> {
    match member(v, "edits"@) {
        Json::Array(items) => Some(ResponseModel {
            edits: edits_from(items@),
            explanation: match str_value(member(v, "explanation"@)) {
                Some(s) => s,
                None => default_explanation(),
            },
            changes: match member(v, "changes"@) {
                Json::Array(cs) => changes_from(cs@),
                _ => Seq::empty(),
            },
        }),
        _ => None,
    }
}

/// Where `pat` occurs in `s`, at index `k`.
pub open spec fn occurs_at(s: Seq<char>, pat: Seq<char>, k: int) -> bool {
    0 <= k && k + pat.len() <= s.len() && s.subrange(k, k + pat.len()) == pat
}

/// The first index at or after `i` where `pat` occurs in `s`.
pub open spec fn find_from(s: Seq<char>, pat: Seq<char>, i: int) -> Option<int>
    decreases s.len() + 1 - i,
{
    if i < 0 || i + pat.len() > s.len() {
        None
    } else if occurs_at(s, pat, i) {
        Some(i)
    } else {
        find_from(s, pat, i + 1)
    }
}

/// The opening of an edit object, searched for where the response holds more than the object.
pub open spec fn edits_marker() -> Seq<char> {
    "{\"edits\""@
}

pub open spec fn response_in(text: Seq<char>) -> Option<ResponseModel> {
    match parsed_json(text) {
        Some(v) => response_of(v),
        None => None,
    }
}

/// The edit response that an accumulated text holds: the text parsed as a whole;
/// failing that, the text from the first `{"edits"` on; else none (prose).
pub open spec fn resolve(acc: Seq<char>) -> Option<ResponseModel> {
    match response_in(acc) {
        Some(r) => Some(r),
        None => match find_from(acc, edits_marker(), 0) {
            Some(k) => response_in(acc.subrange(k, acc.len() as int)),
            None => None,
        },
    }
}

fn edit_from_json(v: &Json) -> (r: Option<EditInstruction>)
    ensures
        match r {
            Some(e) => edit_of(*v) == Some(e@),
            None => edit_of(*v).is_none(),
        },
{
    let start = v.get("start").as_u64();
    let end = v.get("end").as_u64();
    let text = v.get("replacement").as_str();
    match (start, end, text) {
        (Some(s), Some(e), Some(t)) => Some(EditInstruction { start: s, end: e, replacement: t.clone() }),
        _ => None,
    }
}

fn change_from_json(v: &Json) -> (r: Option<FileChange>)
    ensures
        match r {
            Some(c) => change_of(*v) == Some(c@),
            None => change_of(*v).is_none(),
        },
{
    let filename = v.get("filename").as_str();
    let description = v.get("description").as_str();
    match (filename, description) {
        (Some(f), Some(d)) => {
            let component = match v.get("component").as_str() {
                Some(c) => Some(c.clone()),
                None => None,
            };
            Some(FileChange { component, filename: f.clone(), description: d.clone() })
        },
        _ => None,
    }
}

/// Reads the edit response out of a JSON value: `Some` exactly when it has an
/// `edits` array. Entries that are no instruction or no change note are skipped;
/// a missing explanation reads "Changes applied.".
pub fn edit_response(v: &Json) -> (r: Option<EditResponse>)
    ensures
        match r {
            Some(x) => response_of(*v) == Some(x@),
            None => response_of(*v).is_none(),
        },
{
    match v.get("edits") {
        Json::Array(items) => {
            let mut edits: Vec<EditInstruction> = Vec::new();
            let mut i: usize = 0;
            assert(items@.subrange(0, 0) =~= Seq::<Json>::empty());
            while i < items.len()
                invariant
                    i <= items@.len(),
                    edits_view(edits@) == edits_from(items@.subrange(0, i as int)),
                decreases items@.len() - i,
            {
                let ghost pre = items@.subrange(0, i as int);
                let item = edit_from_json(&items[i]);
                assert(items@.subrange(0, i + 1).drop_last() =~= pre);
                match item {
                    Some(e) => {
                        edits.push(e);
                        assert(edits_view(edits@) =~= edits_from(pre).push(e@));
                    },
                    None => {},
                }
                i = i + 1;
            }
            assert(items@.subrange(0, items@.len() as int) =~= items@);
            let explanation = match v.get("explanation").as_str() {
                Some(s) => s.clone(),
                None => "Changes applied.".to_owned(),
            };
            let mut changes: Vec<FileChange> = Vec::new();
            match v.get("changes") {
                Json::Array(cs) => {
                    let mut k: usize = 0;
                    assert(cs@.subrange(0, 0) =~= Seq::<Json>::empty());
                    while k < cs.len()
                        invariant
                            k <= cs@.len(),
                            changes_view(changes@) == changes_from(cs@.subrange(0, k as int)),
                        decreases cs@.len() - k,
                    {
                        let ghost pre = cs@.subrange(0, k as int);
                        let c = change_from_json(&cs[k]);
                        assert(cs@.subrange(0, k + 1).drop_last() =~= pre);
                        match c {
                            Some(c) => {
                                let ghost cv = c@;
                                changes.push(c);
                                assert(changes_view(changes@) =~= changes_from(pre).push(cv));
                            },
                            None => {},
                        }
                        k = k + 1;
                    }
                    assert(cs@.subrange(0, cs@.len() as int) =~= cs@);
                },
                _ => {
                    assert(changes_view(changes@) =~= Seq::<ChangeModel>::empty());
                },
            }
            Some(EditResponse { edits, explanation, changes })
        },
        _ => None,
    }
}

fn response_in_text(text: &[char]) -> (r: Option<EditResponse>)
    ensures
        match r {
            Some(x) => response_in(text@) == Some(x@),
            None => response_in(text@).is_none(),
        },
{
    let s = string_of(text);
    match parse_json(s.as_str()) {
        Some(v) => edit_response(&v),
        None => None,
    }
}

fn find_marker(s: &[char], pat: &[char]) -> (r: Option<usize>)
    ensures
        match r {
            Some(k) => find_from(s@, pat@, 0) == Some(k as int) && k + pat@.len() <= s@.len(),
            None => find_from(s@, pat@, 0).is_none(),
        },
{
    if pat.len() > s.len() {
        return None;
    }
    let n: usize = s.len();
    let last: usize = n - pat.len();
    let mut i: usize = 0;
    while i <= last
        invariant
            n == s@.len(),
            last == s@.len() - pat@.len(),
            find_from(s@, pat@, 0) == find_from(s@, pat@, i as int),
        decreases s@.len() + 1 - i,
    {
        let mut j: usize = 0;
        while j < pat.len() && s[i + j] == pat[j]
            invariant
                n == s@.len(),
                i + pat@.len() <= s@.len(),
                j <= pat@.len(),
                forall|m: int| 0 <= m < j ==> s@[i + m] == pat@[m],
            decreases pat@.len() - j,
        {
            j = j + 1;
        }
        if j == pat.len() {
            assert(s@.subrange(i as int, i + pat@.len()) =~= pat@);
            return Some(i);
        }
        assert(s@.subrange(i as int, i + pat@.len())[j as int] != pat@[j as int]);
        i = i + 1;
    }
    None
}

/// Resolves the accumulated response text into an edit response, or `None`
/// where it is prose.
pub fn resolve_response(acc: &[char]) -> (r: Option<EditResponse>)
    ensures
        match r {
            Some(x) => resolve(acc@) == Some(x@),
            None => resolve(acc@).is_none(),
        },
{
    match response_in_text(acc) {
        Some(r) => Some(r),
        None => {
            let marker = crate::text::chars_of("{\"edits\"");
            match find_marker(acc, marker.as_slice()) {
                Some(k) => {
                    let mut tail: Vec<char> = Vec::new();
                    let mut i: usize = k;
                    while i < acc.len()
                        invariant
                            k <= i <= acc@.len(),
                            tail@ == acc@.subrange(k as int, i as int),
                        decreases acc@.len() - i,
                    {
                        tail.push(acc[i]);
                        i = i + 1;
                        assert(tail@ =~= acc@.subrange(k as int, i as int));
                    }
                    response_in_text(tail.as_slice())
                },
                None => None,
            }
        },
    }
}

/// The terminal event for an edit response once the document has been
/// written, or the write has failed with a message.
pub fn edit_outcome(response: EditResponse, written: Result<(), String>) -> (r: StreamEvent)
    ensures
        match written {
            Ok(()) => r@ == (EventModel::Done { changes: response@.changes, explanation: Some(response@.explanation) }),
            Err(m) => r@ == (EventModel::Error { message: m@ }),
        },
{
    match written {
        Ok(()) => done_event(response),
        Err(m) => StreamEvent::Error { message: m },
    }
}

/// The `Done` event that reports an edit response.
pub fn done_event(response: EditResponse) -> (r: StreamEvent)
    ensures
        r@ == (EventModel::Done { changes: response@.changes, explanation: Some(response@.explanation) }),
{
    StreamEvent::Done { changes: response.changes, explanation: Some(response.explanation) }
}

} // verus!
