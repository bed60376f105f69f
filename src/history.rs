//! Chat-session bookkeeping: where a document's sessions are kept, and how the
//! session index changes when a session is saved, deleted or listed.
use vstd::prelude::*;
use crate::text::{decimal, decimal_digits, chars_of, string_of, text_less, less_text};
use crate::text::same_text;

verus! {

/// The character that stands for `c` in a file name: path separators, wildcard,
/// quoting and redirection characters and spaces become `_`.
pub open spec fn safe_char(c: char) -> char {
    if c == '/' || c == '\\' || c == ':' || c == '*' || c == '?' || c == '"' || c == '<' || c == '>'
        || c == '|' || c == ' ' {
        '_'
    } else {
        c
    }
}

pub open spec fn sanitized(s: Seq<char>) -> Seq<char> {
    s.map_values(|c: char| safe_char(c))
}

/// A name safe to use as one path component.
pub fn sanitize_filename(name: &str) -> (r: String)
    ensures
        r@ == sanitized(name@),
{
    let cs = chars_of(name);
    let mut out: Vec<char> = Vec::new();
    let mut i: usize = 0;
    while i < cs.len()
        invariant
            i <= cs@.len(),
            cs@ == name@,
            out@ == sanitized(cs@.subrange(0, i as int)),
        decreases cs@.len() - i,
    {
        let c = cs[i];
        let d = if c == '/' || c == '\\' || c == ':' || c == '*' || c == '?' || c == '"' || c == '<'
            || c == '>' || c == '|' || c == ' ' {
            '_'
        } else {
            c
        };
        out.push(d);
        i = i + 1;
        assert(out@ =~= sanitized(cs@.subrange(0, i as int)));
    }
    assert(cs@.subrange(0, cs@.len() as int) =~= cs@);
    string_of(out.as_slice())
}

/// The path components of the directory that holds a document's chat
/// sessions: the working directory, `.spicy`, `chats`, the sanitized file name.
pub fn chats_dir(working_dir: &str, file: &str) -> (r: Vec<String>)
    ensures
        r@.map_values(|s: String| s@) == seq![working_dir@, ".spicy"@, "chats"@, sanitized(file@)],
{
    let mut r: Vec<String> = Vec::new();
    r.push(working_dir.to_owned());
    r.push(".spicy".to_owned());
    r.push("chats".to_owned());
    r.push(sanitize_filename(file));
    assert(r@.map_values(|s: String| s@) =~= seq![working_dir@, ".spicy"@, "chats"@, sanitized(file@)]);
    r
}

/// Relies on `std::time::SystemTime::now` measured from `UNIX_EPOCH`: milliseconds
/// since the epoch, 0 for a clock set before it.
#[verifier::external_body]
fn unix_millis() -> (r: u64) {
    std::time::SystemTime::now().duration_since(std::time::UNIX_EPOCH).unwrap_or_default().as_millis() as u64
}

/// A timestamp: milliseconds since the Unix epoch, in decimal.
pub fn timestamp_from_millis(ms: u64) -> (r: String)
    ensures
        r@ == decimal(ms as nat),
{
    let d = decimal_digits(ms);
    string_of(d.as_slice())
}

/// The current time as a timestamp.
pub fn timestamp_now() -> (r: String)
    ensures
        exists|ms: u64| r@ == decimal(ms as nat),
{
    let ms = unix_millis();
    timestamp_from_millis(ms)
}

/// The index entry of one chat session.
pub struct ChatSessionMeta {
    pub id: String,
    pub title: String,
    pub created_at: String,
    pub updated_at: String,
    pub message_count: usize,
}

pub struct MetaModel {
    pub id: Seq<char>,
    pub title: Seq<char>,
    pub created_at: Seq<char>,
    pub updated_at: Seq<char>,
    pub message_count: usize,
}

impl View for ChatSessionMeta {
    type V = MetaModel;

    open spec fn view(&self) -> MetaModel {
        MetaModel {
            id: self.id@,
            title: self.title@,
            created_at: self.created_at@,
            updated_at: self.updated_at@,
            message_count: self.message_count,
        }
    }
}

/// The sessions recorded for one document.
pub struct SessionIndex {
    pub sessions: Vec<ChatSessionMeta>,
}

pub open spec fn metas_view(v: Seq<ChatSessionMeta>) -> Seq<MetaModel> {
    v.map_values(|m: ChatSessionMeta| m@)
}

/// The first position of the session `id`.
pub open spec fn position_of(s: Seq<MetaModel>, id: Seq<char>, i: int) -> Option<int>
    decreases s.len() - i,
{
    if i < 0 || i >= s.len() {
        None
    } else if s[i].id == id {
        Some(i)
    } else {
        position_of(s, id, i + 1)
    }
}

/// The index after saving session `id`: its first entry takes the new title,
/// time and message count; a new session goes first, created and updated now.
pub open spec fn saved(s: Seq<MetaModel>, id: Seq<char>, title: Seq<char>, now: Seq<char>, count: usize) -> Seq<MetaModel> {
    match position_of(s, id, 0) {
        Some(k) => s.update(k, MetaModel { id: s[k].id, title, created_at: s[k].created_at, updated_at: now, message_count: count }),
        None => seq![MetaModel { id, title, created_at: now, updated_at: now, message_count: count }] + s,
    }
}

/// The index without the entries of session `id`.
pub open spec fn without(s: Seq<MetaModel>, id: Seq<char>) -> Seq<MetaModel>
    decreases s.len(),
{
    if s.len() == 0 {
        s
    } else if s.last().id == id {
        without(s.drop_last(), id)
    } else {
        without(s.drop_last(), id).push(s.last())
    }
}

/// `m` placed after every entry updated no earlier than it.
pub open spec fn insert_recent(s: Seq<MetaModel>, m: MetaModel) -> Seq<MetaModel>
    decreases s.len(),
{
    if s.len() == 0 {
        seq![m]
    } else if text_less(s[0].updated_at, m.updated_at) {
        seq![m] + s
    } else {
        seq![s[0]] + insert_recent(s.drop_first(), m)
    }
}

/// The entries by most recent update first; equal times keep their order.
pub open spec fn by_recent(s: Seq<MetaModel>) -> Seq<MetaModel>
    decreases s.len(),
{
    if s.len() == 0 {
        s
    } else {
        insert_recent(by_recent(s.drop_last()), s.last())
    }
}

proof fn lemma_insert_recent_at(s: Seq<MetaModel>, m: MetaModel, q: int)
    requires
        0 <= q <= s.len(),
        forall|j: int| 0 <= j < q ==> !text_less(#[trigger] s[j].updated_at, m.updated_at),
        q == s.len() || text_less(s[q].updated_at, m.updated_at),
    ensures
        insert_recent(s, m) == s.insert(q, m),
    decreases s.len(),
{
    if s.len() == 0 {
        assert(s.insert(q, m) =~= seq![m]);
    } else if q == 0 {
        assert(s.insert(q, m) =~= seq![m] + s);
    } else {
        let t = s.drop_first();
        assert forall|j: int| 0 <= j < q - 1 implies !text_less(#[trigger] t[j].updated_at, m.updated_at) by {
            assert(t[j] == s[j + 1]);
        }
        lemma_insert_recent_at(t, m, q - 1);
        assert(s.insert(q, m) =~= seq![s[0]] + t.insert(q - 1, m));
    }
}

impl SessionIndex {
    pub fn new() -> (r: SessionIndex)
        ensures
            r.sessions@.len() == 0,
    {
        SessionIndex { sessions: Vec::new() }
    }

    /// Records that session `id` was saved at `now` with `title` and
    /// `message_count` messages.
    pub fn record_save(&mut self, id: &str, title: &str, now: &str, message_count: usize)
        ensures
            metas_view(final(self).sessions@) == saved(metas_view(old(self).sessions@), id@, title@, now@, message_count),
    {
        let ghost s0 = metas_view(self.sessions@);
        let mut i: usize = 0;
        while i < self.sessions.len()
            invariant
                s0 == metas_view(self.sessions@),
                s0 == metas_view(old(self).sessions@),
                i <= self.sessions@.len(),
                position_of(s0, id@, 0) == position_of(s0, id@, i as int),
            decreases self.sessions@.len() - i,
        {
            if same_text(self.sessions[i].id.as_str(), id) {
                assert(position_of(s0, id@, i as int) == Some(i as int));
                let old_meta = self.sessions.remove(i);
                let meta = ChatSessionMeta {
                    id: old_meta.id,
                    title: title.to_owned(),
                    created_at: old_meta.created_at,
                    updated_at: now.to_owned(),
                    message_count,
                };
                self.sessions.insert(i, meta);
                assert(metas_view(self.sessions@) =~= saved(s0, id@, title@, now@, message_count));
                return;
            }
            i = i + 1;
        }
        let meta = ChatSessionMeta {
            id: id.to_owned(),
            title: title.to_owned(),
            created_at: now.to_owned(),
            updated_at: now.to_owned(),
            message_count,
        };
        self.sessions.insert(0, meta);
        assert(metas_view(self.sessions@) =~= saved(s0, id@, title@, now@, message_count));
    }

    /// Drops every entry of session `id`.
    pub fn remove_session(&mut self, id: &str)
        ensures
            metas_view(final(self).sessions@) == without(metas_view(old(self).sessions@), id@),
    {
        let ghost s0 = metas_view(self.sessions@);
        let mut kept: Vec<ChatSessionMeta> = Vec::new();
        let mut taken: Vec<ChatSessionMeta> = Vec::new();
        std::mem::swap(&mut taken, &mut self.sessions);
        let ghost all = taken@;
        assert(s0 == metas_view(all));
        let mut rest: Vec<ChatSessionMeta> = Vec::new();
        // Take entries from the back, keeping those of other sessions, then restore the order.
        while taken.len() > 0
            invariant
                s0 == metas_view(all),
                taken@.len() <= all.len(),
                taken@ == all.subrange(0, taken@.len() as int),
                without(s0, id@) == without(metas_view(taken@), id@) + metas_view(rest@).reverse(),
            decreases taken@.len(),
        {
            let ghost before = taken@;
            let m = taken.pop().unwrap();
            assert(metas_view(before).drop_last() =~= metas_view(taken@));
            if !same_text(m.id.as_str(), id) {
                let ghost r0 = rest@;
                rest.push(m);
                assert(metas_view(rest@).reverse() =~= seq![m@] + metas_view(r0).reverse());
                assert(without(metas_view(before), id@) == without(metas_view(taken@), id@).push(m@));
                assert(without(metas_view(taken@), id@).push(m@) + metas_view(r0).reverse()
                    =~= without(metas_view(taken@), id@) + metas_view(rest@).reverse());
            }
            assert(taken@ =~= all.subrange(0, taken@.len() as int));
        }
        assert(without(metas_view(taken@), id@) =~= Seq::<MetaModel>::empty());
        while rest.len() > 0
            invariant
                without(s0, id@) == metas_view(kept@) + metas_view(rest@).reverse(),
            decreases rest@.len(),
        {
            let ghost before = rest@;
            let m = rest.pop().unwrap();
            kept.push(m);
            assert(metas_view(before).reverse() =~= seq![m@] + metas_view(rest@).reverse());
            assert(metas_view(kept@) + metas_view(rest@).reverse() =~= metas_view(kept@.drop_last()) + metas_view(before).reverse());
        }
        assert(metas_view(kept@) + metas_view(rest@).reverse() =~= metas_view(kept@));
        self.sessions = kept;
    }

    /// Orders the entries by most recent update first; equal times keep their order.
    pub fn sort_by_recent(&mut self)
        ensures
            metas_view(final(self).sessions@) == by_recent(metas_view(old(self).sessions@)),
    {
        let ghost s0 = metas_view(self.sessions@);
        let mut taken: Vec<ChatSessionMeta> = Vec::new();
        std::mem::swap(&mut taken, &mut self.sessions);
        // Entries still to place, last first.
        let mut todo: Vec<ChatSessionMeta> = Vec::new();
        while taken.len() > 0
            invariant
                s0 == metas_view(taken@) + metas_view(todo@).reverse(),
            decreases taken@.len(),
        {
            let ghost before = taken@;
            let ghost t0 = todo@;
            let m = taken.pop().unwrap();
            todo.push(m);
            assert(metas_view(before) =~= metas_view(taken@).push(m@));
            assert(metas_view(todo@).reverse() =~= seq![m@] + metas_view(t0).reverse());
            assert(metas_view(taken@) + metas_view(todo@).reverse() =~= metas_view(before) + metas_view(t0).reverse());
        }
        assert(metas_view(todo@).reverse() =~= s0);
        let mut sorted: Vec<ChatSessionMeta> = Vec::new();
        let ghost placed: int = 0;
        assert(by_recent(s0.subrange(0, 0)) =~= metas_view(sorted@));
        while todo.len() > 0
            invariant
                0 <= placed <= s0.len(),
                metas_view(todo@).reverse() == s0.subrange(placed, s0.len() as int),
                metas_view(sorted@) == by_recent(s0.subrange(0, placed)),
            decreases todo@.len(),
        {
            let ghost before = todo@;
            let m = todo.pop().unwrap();
            assert(metas_view(before).reverse() =~= seq![m@] + metas_view(todo@).reverse());
            assert(s0.subrange(placed, s0.len() as int)[0] == s0[placed]);
            assert(s0[placed] == m@);
            assert(s0.subrange(placed, s0.len() as int).drop_first() =~= s0.subrange(placed + 1, s0.len() as int));
            assert((seq![m@] + metas_view(todo@).reverse()).drop_first() =~= metas_view(todo@).reverse());
            assert(metas_view(todo@).reverse() =~= s0.subrange(placed + 1, s0.len() as int));
            let mut q: usize = 0;
            while q < sorted.len() && !less_text(sorted[q].updated_at.as_str(), m.updated_at.as_str())
                invariant
                    q <= sorted@.len(),
                    forall|j: int| 0 <= j < q ==> !text_less(#[trigger] metas_view(sorted@)[j].updated_at, m@.updated_at),
                decreases sorted@.len() - q,
            {
                q = q + 1;
            }
            proof {
                lemma_insert_recent_at(metas_view(sorted@), m@, q as int);
                assert(s0.subrange(0, placed + 1).drop_last() =~= s0.subrange(0, placed));
                assert(s0.subrange(0, placed + 1).last() == m@);
            }
            let ghost sv = metas_view(sorted@);
            sorted.insert(q, m);
            assert(metas_view(sorted@) =~= sv.insert(q as int, s0[placed]));
            proof {
                placed = placed + 1;
            }
        }
        assert(s0.subrange(0, s0.len() as int) =~= s0);
        self.sessions = sorted;
    }
}

} // verus!
