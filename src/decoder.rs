//! Stream decoder: reassembles newline-delimited `data:` records from chunks of
//! bytes, classifies the response text once, and emits events, ending each
//! request with exactly one terminal step.
use vstd::prelude::*;
use crate::text::{trim_start, trim_end, is_whitespace, chars_of, string_of, push_all, trimmed_end, trimmed};
use crate::json::{Json, member, str_value, parsed_json, parse_json};
use crate::text::same_text;
use crate::document::{lossy_utf8_text, lossy_utf8};
use crate::events::{StreamEvent, EventModel, FileChange, ChangeModel, changes_view};
use crate::payload::{EditResponse, ResponseModel, resolve, resolve_response, done_event};

verus! {

#[derive(PartialEq, Eq, Structural, Clone, Copy)]
pub enum DeltaKind {
    Thinking,
    Text,
}

/// A record of the upstream stream that the decoder acts on.
pub enum DecodedEvent {
    ContentDelta { kind: DeltaKind, text: String },
    MessageStop,
    UpstreamError { message: String },
}

pub enum DecodedModel {
    ContentDelta { kind: DeltaKind, text: Seq<char> },
    MessageStop,
    UpstreamError { message: Seq<char> },
}

impl View for DecodedEvent {
    type V = DecodedModel;

    open spec fn view(&self) -> DecodedModel {
        match self {
            DecodedEvent::ContentDelta { kind, text } => DecodedModel::ContentDelta { kind: *kind, text: text@ },
            DecodedEvent::MessageStop => DecodedModel::MessageStop,
            DecodedEvent::UpstreamError { message } => DecodedModel::UpstreamError { message: message@ },
        }
    }
}

/// How the response text is handled, decided once on its first non-empty delta.
#[derive(PartialEq, Eq, Structural, Clone, Copy)]
pub enum TextMode {
    Undecided,
    /// The response opened with `{`: text is held back until the end.
    Suppressed,
    /// Text is forwarded as it arrives.
    Passthrough,
}

/// What the decoder asks of its caller: deliver an event, or apply an edit
/// response to the target document and then deliver its outcome.
pub enum Step {
    Emit(StreamEvent),
    Apply(EditResponse),
}

pub enum StepModel {
    Emit(EventModel),
    Apply(ResponseModel),
}

impl View for Step {
    type V = StepModel;

    open spec fn view(&self) -> StepModel {
        match self {
            Step::Emit(e) => StepModel::Emit(e@),
            Step::Apply(r) => StepModel::Apply(r@),
        }
    }
}

pub open spec fn steps_view(v: Seq<Step>) -> Seq<StepModel> {
    v.map_values(|s: Step| s@)
}

/// A step that ends the request: `Done`, `Error`, or applying an edit response
/// (whose outcome is one of the two).
pub open spec fn terminal(s: StepModel) -> bool {
    match s {
        StepModel::Emit(e) => e is Done || e is Error,
        StepModel::Apply(_) => true,
    }
}

pub struct DecoderModel {
    /// Bytes after the last line feed seen.
    pub pending: Seq<u8>,
    /// The response text received so far.
    pub acc: Seq<char>,
    pub mode: TextMode,
    /// The terminal step has been produced.
    pub done: bool,
    /// Whether there is a document that an edit response is applied to.
    pub has_target: bool,
}

pub open spec fn initial(has_target: bool) -> DecoderModel {
    DecoderModel { pending: Seq::empty(), acc: Seq::empty(), mode: TextMode::Undecided, done: false, has_target }
}

pub open spec fn with_done(st: DecoderModel) -> DecoderModel {
    DecoderModel { pending: st.pending, acc: st.acc, mode: st.mode, done: true, has_target: st.has_target }
}

pub open spec fn with_pending(st: DecoderModel, p: Seq<u8>) -> DecoderModel {
    DecoderModel { pending: p, acc: st.acc, mode: st.mode, done: st.done, has_target: st.has_target }
}

/// The record that a parsed `data:` payload holds, if the decoder acts on it.
pub open spec fn record_of(v: Json) -> Option<DecodedModel> {
    let t = str_value(member(v, "type"@));
    if t == Some("content_block_delta"@) {
        let d = member(v, "delta"@);
        let dt = str_value(member(d, "type"@));
        if dt == Some("thinking_delta"@) {
            match str_value(member(d, "thinking"@)) {
                Some(x) => Some(DecodedModel::ContentDelta { kind: DeltaKind::Thinking, text: x }),
                None => None,
            }
        } else if dt == Some("text_delta"@) {
            match str_value(member(d, "text"@)) {
                Some(x) => Some(DecodedModel::ContentDelta { kind: DeltaKind::Text, text: x }),
                None => None,
            }
        } else {
            None
        }
    } else if t == Some("message_stop"@) {
        Some(DecodedModel::MessageStop)
    } else if t == Some("error"@) {
        Some(DecodedModel::UpstreamError {
            message: match str_value(member(member(v, "error"@), "message"@)) {
                Some(m) => m,
                None => "Unknown API error"@,
            },
        })
    } else {
        None
    }
}

/// The record on one line: lines without the `data: ` prefix, the `[DONE]`
/// sentinel, payloads that are not JSON and unknown records carry none.
pub open spec fn line_event(line: Seq<char>) -> Option<DecodedModel> {
    let prefix = "data: "@;
    if line.len() >= prefix.len() && line.subrange(0, prefix.len() as int) == prefix {
        let data = line.subrange(prefix.len() as int, line.len() as int);
        if data == "[DONE]"@ {
            None
        } else {
            match parsed_json(data) {
                Some(v) => record_of(v),
                None => None,
            }
        }
    } else {
        None
    }
}

/// The first character after leading whitespace is an opening brace.
pub open spec fn brace_led(t: Seq<char>) -> bool {
    trim_start(t).len() > 0 && trim_start(t)[0] == '{'
}

/// The mode after a text delta: decided on the first non-empty one, then kept.
pub open spec fn mode_after(mode: TextMode, t: Seq<char>) -> TextMode {
    if mode == TextMode::Undecided && t.len() > 0 {
        if brace_led(t) {
            TextMode::Suppressed
        } else {
            TextMode::Passthrough
        }
    } else {
        mode
    }
}

pub open spec fn text_step(t: Seq<char>) -> StepModel {
    StepModel::Emit(EventModel::Text { content: t })
}

pub open spec fn on_text(st: DecoderModel, t: Seq<char>) -> (DecoderModel, Seq<StepModel>) {
    let m = mode_after(st.mode, t);
    (
        DecoderModel { pending: st.pending, acc: st.acc + t, mode: m, done: st.done, has_target: st.has_target },
        if m == TextMode::Suppressed { Seq::empty() } else { seq![text_step(t)] },
    )
}

/// The terminal step for the accumulated text: an edit response is applied
/// (or, without a target document, reported); prose ends with a bare `Done`.
pub open spec fn finish_steps(st: DecoderModel) -> Seq<StepModel> {
    match resolve(st.acc) {
        None => seq![StepModel::Emit(EventModel::Done { changes: Seq::empty(), explanation: None })],
        Some(r) => if st.has_target {
            seq![StepModel::Apply(r)]
        } else {
            seq![StepModel::Emit(EventModel::Done { changes: r.changes, explanation: Some(r.explanation) })]
        },
    }
}

pub open spec fn finalize(st: DecoderModel) -> (DecoderModel, Seq<StepModel>) {
    (with_done(st), finish_steps(st))
}

pub open spec fn on_event(st: DecoderModel, ev: DecodedModel) -> (DecoderModel, Seq<StepModel>) {
    match ev {
        DecodedModel::ContentDelta { kind, text } => if kind == DeltaKind::Thinking {
            (st, seq![StepModel::Emit(EventModel::Thinking { content: text })])
        } else {
            on_text(st, text)
        },
        DecodedModel::MessageStop => finalize(st),
        DecodedModel::UpstreamError { message } => (with_done(st), seq![StepModel::Emit(EventModel::Error { message })]),
    }
}

/// One complete line; nothing happens once the request has ended.
pub open spec fn on_line(st: DecoderModel, line: Seq<char>) -> (DecoderModel, Seq<StepModel>) {
    if st.done {
        (st, Seq::empty())
    } else {
        match line_event(line) {
            None => (st, Seq::empty()),
            Some(ev) => on_event(st, ev),
        }
    }
}

/// The text of a line's bytes, without trailing whitespace.
pub open spec fn line_text(b: Seq<u8>) -> Seq<char> {
    trim_end(lossy_utf8_text(b))
}

pub open spec fn after(o: Seq<StepModel>, r: (DecoderModel, Seq<StepModel>)) -> (DecoderModel, Seq<StepModel>) {
    (r.0, o + r.1)
}

/// The lines of `buf` handled in order, the current line starting at `start`
/// and the scan at `i`; what follows the last line feed is kept as pending.
pub open spec fn scan(st: DecoderModel, buf: Seq<u8>, start: int, i: int) -> (DecoderModel, Seq<StepModel>)
    decreases buf.len() - i,
{
    if i < start || i >= buf.len() {
        (with_pending(st, buf.subrange(start, buf.len() as int)), Seq::empty())
    } else if buf[i] == 10u8 {
        let r = on_line(st, line_text(buf.subrange(start, i)));
        after(r.1, scan(r.0, buf, i + 1, i + 1))
    } else {
        scan(st, buf, start, i + 1)
    }
}

/// A chunk of bytes: appended to what was pending, then split into lines.
pub open spec fn on_chunk(st: DecoderModel, bytes: Seq<u8>) -> (DecoderModel, Seq<StepModel>) {
    if st.done {
        (st, Seq::empty())
    } else {
        scan(st, st.pending + bytes, 0, 0)
    }
}

/// The end of the byte stream: a last unterminated line is handled, and a
/// request that has not ended is finalized as if the stream had stopped.
pub open spec fn on_end(st: DecoderModel) -> (DecoderModel, Seq<StepModel>) {
    if st.done {
        (st, Seq::empty())
    } else {
        let rest = trim_end(trim_start(lossy_utf8_text(st.pending)));
        let r1 = if rest.len() > 0 { on_line(st, rest) } else { (st, Seq::empty()) };
        if r1.0.done {
            r1
        } else {
            after(r1.1, finalize(r1.0))
        }
    }
}

/// A failure of the transport: the request ends with an error.
pub open spec fn on_failure(st: DecoderModel, message: Seq<char>) -> (DecoderModel, Seq<StepModel>) {
    if st.done {
        (st, Seq::empty())
    } else {
        (with_done(st), seq![StepModel::Emit(EventModel::Error { message: "Stream error: "@ + message })])
    }
}

/// Whether `v` is the string `name`.
fn is_text(v: &Json, name: &str) -> (r: bool)
    ensures
        r == (str_value(*v) == Some(name@)),
{
    match v.as_str() {
        Some(s) => same_text(s.as_str(), name),
        None => false,
    }
}

/// The record that a parsed `data:` payload holds, if the decoder acts on it.
pub fn record_from_json(v: &Json) -> (r: Option<DecodedEvent>)
    ensures
        match r {
            Some(e) => record_of(*v) == Some(e@),
            None => record_of(*v).is_none(),
        },
{
    let ty = v.get("type");
    if is_text(ty, "content_block_delta") {
        let d = v.get("delta");
        let dt = d.get("type");
        if is_text(dt, "thinking_delta") {
            match d.get("thinking").as_str() {
                Some(x) => Some(DecodedEvent::ContentDelta { kind: DeltaKind::Thinking, text: x.clone() }),
                None => None,
            }
        } else if is_text(dt, "text_delta") {
            match d.get("text").as_str() {
                Some(x) => Some(DecodedEvent::ContentDelta { kind: DeltaKind::Text, text: x.clone() }),
                None => None,
            }
        } else {
            None
        }
    } else if is_text(ty, "message_stop") {
        Some(DecodedEvent::MessageStop)
    } else if is_text(ty, "error") {
        let message = match v.get("error").get("message").as_str() {
            Some(m) => m.clone(),
            None => "Unknown API error".to_owned(),
        };
        Some(DecodedEvent::UpstreamError { message })
    } else {
        None
    }
}

/// Decodes one line of the stream into the record it carries, if any.
pub fn decode_line(line: &[char]) -> (r: Option<DecodedEvent>)
    ensures
        match r {
            Some(e) => line_event(line@) == Some(e@),
            None => line_event(line@).is_none(),
        },
{
    let prefix = chars_of("data: ");
    if line.len() < prefix.len() {
        return None;
    }
    let mut j: usize = 0;
    while j < prefix.len()
        invariant
            prefix@ == "data: "@,
            prefix@.len() <= line@.len(),
            j <= prefix@.len(),
            forall|m: int| 0 <= m < j ==> line@[m] == prefix@[m],
        decreases prefix@.len() - j,
    {
        if line[j] != prefix[j] {
            assert(line@.subrange(0, prefix@.len() as int)[j as int] != prefix@[j as int]);
            return None;
        }
        j = j + 1;
    }
    assert(line@.subrange(0, prefix@.len() as int) =~= prefix@);
    let mut data: Vec<char> = Vec::new();
    let mut i: usize = prefix.len();
    while i < line.len()
        invariant
            prefix@.len() <= i <= line@.len(),
            data@ == line@.subrange(prefix@.len() as int, i as int),
        decreases line@.len() - i,
    {
        data.push(line[i]);
        i = i + 1;
        assert(data@ =~= line@.subrange(prefix@.len() as int, i as int));
    }
    let text = string_of(data.as_slice());
    if same_text(text.as_str(), "[DONE]") {
        return None;
    }
    match parse_json(text.as_str()) {
        Some(v) => record_from_json(&v),
        None => None,
    }
}

/// Whether the first character after leading whitespace is `{`.
pub fn opens_with_brace(t: &[char]) -> (r: bool)
    ensures
        r == brace_led(t@),
{
    let mut k: usize = 0;
    assert(t@.subrange(0, t@.len() as int) =~= t@);
    while k < t.len() && is_whitespace(t[k])
        invariant
            k <= t@.len(),
            trim_start(t@) == trim_start(t@.subrange(k as int, t@.len() as int)),
        decreases t@.len() - k,
    {
        assert(t@.subrange(k as int, t@.len() as int).drop_first() =~= t@.subrange(k + 1, t@.len() as int));
        k = k + 1;
    }
    k < t.len() && t[k] == '{'
}

/// The decoder's state for one request.
pub struct StreamDecoder {
    pending: Vec<u8>,
    acc: Vec<char>,
    mode: TextMode,
    done: bool,
    has_target: bool,
}

impl View for StreamDecoder {
    type V = DecoderModel;

    closed spec fn view(&self) -> DecoderModel {
        DecoderModel {
            pending: self.pending@,
            acc: self.acc@,
            mode: self.mode,
            done: self.done,
            has_target: self.has_target,
        }
    }
}

impl StreamDecoder {
    /// A decoder for a request; `has_target` tells whether an edit response
    /// is to be applied to a document.
    pub fn new(has_target: bool) -> (r: StreamDecoder)
        ensures
            r@ == initial(has_target),
    {
        let r = StreamDecoder { pending: Vec::new(), acc: Vec::new(), mode: TextMode::Undecided, done: false, has_target };
        assert(r@ =~= initial(has_target));
        r
    }

    /// Whether the request has ended.
    pub fn is_done(&self) -> (r: bool)
        ensures
            r == self@.done,
    {
        self.done
    }

    /// The response text received so far.
    pub fn accumulated(&self) -> (r: String)
        ensures
            r@ == self@.acc,
    {
        string_of(self.acc.as_slice())
    }

    /// The current text mode.
    pub fn mode(&self) -> (r: TextMode)
        ensures
            r == self@.mode,
    {
        self.mode
    }

    fn finalize(&mut self, out: &mut Vec<Step>)
        ensures
            (final(self)@, steps_view(final(out)@)) == after(steps_view(old(out)@), finalize(old(self)@)),
    {
        let ghost st = self@;
        let resolved = resolve_response(self.acc.as_slice());
        let step = match resolved {
            None => {
                let changes: Vec<FileChange> = Vec::new();
                assert(changes_view(changes@) =~= Seq::<ChangeModel>::empty());
                Step::Emit(StreamEvent::Done { changes, explanation: None })
            },
            Some(r) => if self.has_target {
                Step::Apply(r)
            } else {
                Step::Emit(done_event(r))
            },
        };
        assert(finish_steps(st) =~= seq![step@]);
        let ghost before = steps_view(out@);
        out.push(step);
        self.done = true;
        assert(steps_view(out@) =~= before + finish_steps(st));
        assert(self@ =~= with_done(st));
    }

    /// Handles one decoded record.
    pub fn handle_event(&mut self, ev: DecodedEvent, out: &mut Vec<Step>)
        ensures
            (final(self)@, steps_view(final(out)@)) == after(steps_view(old(out)@), on_event(old(self)@, ev@)),
    {
        let ghost st = self@;
        let ghost before = steps_view(out@);
        let ghost evm = ev@;
        match ev {
            DecodedEvent::ContentDelta { kind, text } => {
                if kind == DeltaKind::Thinking {
                    out.push(Step::Emit(StreamEvent::Thinking { content: text }));
                    assert(steps_view(out@) =~= before + seq![StepModel::Emit(EventModel::Thinking { content: evm->ContentDelta_text })]);
                } else {
                    let t = chars_of(text.as_str());
                    if self.mode == TextMode::Undecided && t.len() > 0 {
                        if opens_with_brace(t.as_slice()) {
                            self.mode = TextMode::Suppressed;
                        } else {
                            self.mode = TextMode::Passthrough;
                        }
                    }
                    push_all(&mut self.acc, t.as_slice());
                    if self.mode != TextMode::Suppressed {
                        out.push(Step::Emit(StreamEvent::Text { content: text }));
                        assert(steps_view(out@) =~= before + seq![text_step(t@)]);
                    } else {
                        assert(steps_view(out@) =~= before + Seq::<StepModel>::empty());
                    }
                    assert(self@ =~= on_text(st, t@).0);
                }
            },
            DecodedEvent::MessageStop => {
                self.finalize(out);
            },
            DecodedEvent::UpstreamError { message } => {
                out.push(Step::Emit(StreamEvent::Error { message }));
                self.done = true;
                assert(steps_view(out@) =~= before + seq![StepModel::Emit(EventModel::Error { message: evm->UpstreamError_message })]);
                assert(self@ =~= with_done(st));
            },
        }
    }

    /// Handles one complete line of the stream.
    pub fn handle_line(&mut self, line: &[char], out: &mut Vec<Step>)
        ensures
            (final(self)@, steps_view(final(out)@)) == after(steps_view(old(out)@), on_line(old(self)@, line@)),
    {
        let ghost before = steps_view(out@);
        if self.done {
            assert(before + Seq::<StepModel>::empty() =~= before);
            return;
        }
        match decode_line(line) {
            None => {
                assert(before + Seq::<StepModel>::empty() =~= before);
            },
            Some(ev) => {
                self.handle_event(ev, out);
            },
        }
    }

    /// Takes the next chunk of bytes from the transport and returns the steps
    /// it gives, in order.
    pub fn push_chunk(&mut self, chunk: &[u8]) -> (r: Vec<Step>)
        ensures
            (final(self)@, steps_view(r@)) == on_chunk(old(self)@, chunk@),
    {
        let mut out: Vec<Step> = Vec::new();
        if self.done {
            assert(steps_view(out@) =~= Seq::<StepModel>::empty());
            return out;
        }
        let ghost st0 = self@;
        let mut buf: Vec<u8> = Vec::new();
        let mut k: usize = 0;
        while k < self.pending.len()
            invariant
                k <= self.pending@.len(),
                buf@ == self.pending@.subrange(0, k as int),
            decreases self.pending@.len() - k,
        {
            buf.push(self.pending[k]);
            k = k + 1;
            assert(buf@ =~= self.pending@.subrange(0, k as int));
        }
        k = 0;
        let ghost p = buf@;
        while k < chunk.len()
            invariant
                k <= chunk@.len(),
                buf@ == p + chunk@.subrange(0, k as int),
            decreases chunk@.len() - k,
        {
            buf.push(chunk[k]);
            k = k + 1;
            assert(buf@ =~= p + chunk@.subrange(0, k as int));
        }
        assert(chunk@.subrange(0, chunk@.len() as int) =~= chunk@);
        assert(self.pending@.subrange(0, self.pending@.len() as int) =~= self.pending@);
        let mut start: usize = 0;
        let mut i: usize = 0;
        assert(steps_view(out@) =~= Seq::<StepModel>::empty());
        assert(after(Seq::empty(), scan(self@, buf@, 0, 0)) =~= scan(self@, buf@, 0, 0));
        while i < buf.len()
            invariant
                start <= i <= buf@.len(),
                on_chunk(st0, chunk@) == after(steps_view(out@), scan(self@, buf@, start as int, i as int)),
            decreases buf@.len() - i,
        {
            if buf[i] == 10u8 {
                let mut bytes: Vec<u8> = Vec::new();
                let mut m: usize = start;
                while m < i
                    invariant
                        start <= m <= i < buf@.len(),
                        bytes@ == buf@.subrange(start as int, m as int),
                    decreases i - m,
                {
                    bytes.push(buf[m]);
                    m = m + 1;
                    assert(bytes@ =~= buf@.subrange(start as int, m as int));
                }
                let text = lossy_utf8(bytes.as_slice());
                let chars = chars_of(text.as_str());
                let line = trimmed_end(chars.as_slice());
                let ghost s_before = self@;
                let ghost o_before = steps_view(out@);
                self.handle_line(line.as_slice(), &mut out);
                proof {
                    let r = on_line(s_before, line_text(buf@.subrange(start as int, i as int)));
                    let rest = scan(r.0, buf@, i + 1, i + 1);
                    assert(scan(s_before, buf@, start as int, i as int) == after(r.1, rest));
                    assert(o_before + (r.1 + rest.1) =~= (o_before + r.1) + rest.1);
                }
                start = i + 1;
            }
            i = i + 1;
        }
        let mut rest: Vec<u8> = Vec::new();
        let mut m: usize = start;
        while m < buf.len()
            invariant
                start <= m <= buf@.len(),
                rest@ == buf@.subrange(start as int, m as int),
            decreases buf@.len() - m,
        {
            rest.push(buf[m]);
            m = m + 1;
            assert(rest@ =~= buf@.subrange(start as int, m as int));
        }
        let ghost s_end = self@;
        self.pending = rest;
        assert(self@ =~= with_pending(s_end, buf@.subrange(start as int, buf@.len() as int)));
        assert(steps_view(out@) + Seq::<StepModel>::empty() =~= steps_view(out@));
        out
    }

    /// Ends the stream: handles a last unterminated line and, where the request
    /// has not ended, finalizes it.
    pub fn end_of_stream(&mut self) -> (r: Vec<Step>)
        ensures
            (final(self)@, steps_view(r@)) == on_end(old(self)@),
    {
        let mut out: Vec<Step> = Vec::new();
        assert(steps_view(out@) =~= Seq::<StepModel>::empty());
        if self.done {
            return out;
        }
        let ghost st = self@;
        let text = lossy_utf8(self.pending.as_slice());
        let chars = chars_of(text.as_str());
        let rest = trimmed(chars.as_slice());
        if rest.len() > 0 {
            self.handle_line(rest.as_slice(), &mut out);
            assert(Seq::<StepModel>::empty() + on_line(st, rest@).1 =~= on_line(st, rest@).1);
        }
        if !self.done {
            self.finalize(&mut out);
        }
        out
    }

    /// The transport failed with `message`: the request ends with an error.
    pub fn transport_failed(&mut self, message: &str) -> (r: Vec<Step>)
        ensures
            (final(self)@, steps_view(r@)) == on_failure(old(self)@, message@),
    {
        let mut out: Vec<Step> = Vec::new();
        if self.done {
            assert(steps_view(out@) =~= Seq::<StepModel>::empty());
            return out;
        }
        let ghost st = self@;
        let mut text = chars_of("Stream error: ");
        let m = chars_of(message);
        push_all(&mut text, m.as_slice());
        let full = string_of(text.as_slice());
        out.push(Step::Emit(StreamEvent::Error { message: full }));
        self.done = true;
        assert(steps_view(out@) =~= seq![StepModel::Emit(EventModel::Error { message: "Stream error: "@ + message@ })]);
        assert(self@ =~= with_done(st));
        out
    }
}

} // verus!
