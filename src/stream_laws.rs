//! Laws of the stream decoder: the text mode is decided once, and every
//! request ends with exactly one terminal step, which comes last.
use vstd::prelude::*;
use crate::decoder::{
    DecoderModel, StepModel, TextMode, DecodedModel, DeltaKind, terminal, initial, brace_led, text_step, on_event, on_line, line_event, scan, on_chunk, on_end,
    on_failure, finalize, finish_steps, after,
};

verus! {

/// What the transport hands the decoder: a chunk of bytes, or a failure.
pub enum Input {
    Chunk(Seq<u8>),
    Failure(Seq<char>),
}

pub open spec fn on_input(st: DecoderModel, inp: Input) -> (DecoderModel, Seq<StepModel>) {
    match inp {
        Input::Chunk(b) => on_chunk(st, b),
        Input::Failure(m) => on_failure(st, m),
    }
}

/// The inputs handled in order.
pub open spec fn run(st: DecoderModel, ins: Seq<Input>) -> (DecoderModel, Seq<StepModel>)
    decreases ins.len(),
{
    if ins.len() == 0 {
        (st, Seq::empty())
    } else {
        let r = on_input(st, ins[0]);
        after(r.1, run(r.0, ins.drop_first()))
    }
}

/// Every step of a request: a fresh decoder given the inputs, then the end of the stream.
pub open spec fn session(has_target: bool, ins: Seq<Input>) -> Seq<StepModel> {
    let r = run(initial(has_target), ins);
    r.1 + on_end(r.0).1
}

pub open spec fn no_terminal(o: Seq<StepModel>) -> bool {
    forall|i: int| 0 <= i < o.len() ==> !terminal(#[trigger] o[i])
}

/// One terminal step, the last.
pub open spec fn ends_once(o: Seq<StepModel>) -> bool {
    o.len() >= 1 && terminal(o.last()) && no_terminal(o.drop_last())
}

/// From `st`, the outcome `r` keeps to the protocol: nothing after the end;
/// before it, either no terminal step and no end, or an end with one terminal step, last.
pub open spec fn step_ok(st: DecoderModel, r: (DecoderModel, Seq<StepModel>)) -> bool {
    if st.done {
        r.1.len() == 0 && r.0.done
    } else {
        (!r.0.done && no_terminal(r.1)) || (r.0.done && ends_once(r.1))
    }
}

proof fn lemma_compose(st: DecoderModel, r1: (DecoderModel, Seq<StepModel>), r2: (DecoderModel, Seq<StepModel>))
    requires
        step_ok(st, r1),
        step_ok(r1.0, r2),
    ensures
        step_ok(st, after(r1.1, r2)),
{
    let o = r1.1 + r2.1;
    if st.done {
        assert(o =~= Seq::<StepModel>::empty());
    } else if !r1.0.done {
        if !r2.0.done {
            assert forall|i: int| 0 <= i < o.len() implies !terminal(#[trigger] o[i]) by {
                if i < r1.1.len() {
                    assert(o[i] == r1.1[i]);
                } else {
                    assert(o[i] == r2.1[i - r1.1.len()]);
                }
            }
        } else {
            assert(o.last() == r2.1.last());
            let d = o.drop_last();
            assert forall|i: int| 0 <= i < d.len() implies !terminal(#[trigger] d[i]) by {
                if i < r1.1.len() {
                    assert(d[i] == r1.1[i]);
                } else {
                    assert(d[i] == r2.1.drop_last()[i - r1.1.len()]);
                }
            }
        }
    } else {
        assert(o =~= r1.1);
    }
}

proof fn lemma_finalize_ok(st: DecoderModel)
    requires
        !st.done,
    ensures
        step_ok(st, finalize(st)),
{
    let fs = finish_steps(st);
    assert(fs.len() == 1 && terminal(fs[0]));
    assert(fs.drop_last() =~= Seq::<StepModel>::empty());
}

proof fn lemma_line_ok(st: DecoderModel, line: Seq<char>)
    ensures
        step_ok(st, on_line(st, line)),
{
    if !st.done {
        match line_event(line) {
            None => {},
            Some(ev) => {
                match ev {
                    DecodedModel::ContentDelta { kind, text } => {
                        let o = on_event(st, ev).1;
                        assert(forall|i: int| 0 <= i < o.len() ==> !terminal(#[trigger] o[i]));
                    },
                    DecodedModel::MessageStop => {
                        lemma_finalize_ok(st);
                    },
                    DecodedModel::UpstreamError { message } => {
                        let o = on_event(st, ev).1;
                        assert(o.drop_last() =~= Seq::<StepModel>::empty());
                    },
                }
            },
        }
    }
}

proof fn lemma_scan_ok(st: DecoderModel, buf: Seq<u8>, start: int, i: int)
    ensures
        step_ok(st, scan(st, buf, start, i)),
    decreases buf.len() - i,
{
    if i < start || i >= buf.len() {
    } else if buf[i] == 10u8 {
        let r = on_line(st, crate::decoder::line_text(buf.subrange(start, i)));
        lemma_line_ok(st, crate::decoder::line_text(buf.subrange(start, i)));
        lemma_scan_ok(r.0, buf, i + 1, i + 1);
        lemma_compose(st, r, scan(r.0, buf, i + 1, i + 1));
    } else {
        lemma_scan_ok(st, buf, start, i + 1);
    }
}

proof fn lemma_input_ok(st: DecoderModel, inp: Input)
    ensures
        step_ok(st, on_input(st, inp)),
{
    match inp {
        Input::Chunk(b) => {
            if !st.done {
                lemma_scan_ok(st, st.pending + b, 0, 0);
            }
        },
        Input::Failure(m) => {
            if !st.done {
                let o = on_failure(st, m).1;
                assert(o.drop_last() =~= Seq::<StepModel>::empty());
            }
        },
    }
}

proof fn lemma_run_ok(st: DecoderModel, ins: Seq<Input>)
    ensures
        step_ok(st, run(st, ins)),
    decreases ins.len(),
{
    if ins.len() > 0 {
        let r = on_input(st, ins[0]);
        lemma_input_ok(st, ins[0]);
        lemma_run_ok(r.0, ins.drop_first());
        lemma_compose(st, r, run(r.0, ins.drop_first()));
    }
}

proof fn lemma_end_ok(st: DecoderModel)
    ensures
        step_ok(st, on_end(st)),
        on_end(st).0.done,
{
    if !st.done {
        let rest = crate::text::trim_end(crate::text::trim_start(crate::document::lossy_utf8_text(st.pending)));
        let r1 = if rest.len() > 0 { on_line(st, rest) } else { (st, Seq::<StepModel>::empty()) };
        if rest.len() > 0 {
            lemma_line_ok(st, rest);
        }
        if !r1.0.done {
            lemma_finalize_ok(r1.0);
            lemma_compose(st, r1, finalize(r1.0));
        }
    }
}

/// Whatever chunks, records and failures arrive, and wherever the stream ends,
/// a request yields exactly one terminal step (`Done`, `Error`, or an edit
/// response to apply, whose outcome is one of the two), and it is the last.
pub proof fn lemma_one_terminal_step(has_target: bool, ins: Seq<Input>)
    ensures
        ends_once(session(has_target, ins)),
{
    let st = initial(has_target);
    let r = run(st, ins);
    lemma_run_ok(st, ins);
    lemma_end_ok(r.0);
    lemma_compose(st, r, on_end(r.0));
}

/// Text deltas handed to the decoder one after the other.
pub open spec fn feed_texts(st: DecoderModel, ts: Seq<Seq<char>>) -> (DecoderModel, Seq<StepModel>)
    decreases ts.len(),
{
    if ts.len() == 0 {
        (st, Seq::empty())
    } else {
        let r = on_event(st, DecodedModel::ContentDelta { kind: DeltaKind::Text, text: ts[0] });
        after(r.1, feed_texts(r.0, ts.drop_first()))
    }
}

/// The index of the first non-empty delta (the number of deltas if there is none).
pub open spec fn first_nonempty(ts: Seq<Seq<char>>) -> int
    decreases ts.len(),
{
    if ts.len() == 0 || ts[0].len() > 0 {
        0
    } else {
        1 + first_nonempty(ts.drop_first())
    }
}

/// `Text` events forwarding the deltas, in order.
pub open spec fn text_steps(ts: Seq<Seq<char>>) -> Seq<StepModel> {
    ts.map_values(|t: Seq<char>| text_step(t))
}

proof fn lemma_first_nonempty_bounds(ts: Seq<Seq<char>>)
    ensures
        0 <= first_nonempty(ts) <= ts.len(),
    decreases ts.len(),
{
    if ts.len() > 0 && ts[0].len() == 0 {
        lemma_first_nonempty_bounds(ts.drop_first());
    }
}

proof fn lemma_suppressed_stays(st: DecoderModel, ts: Seq<Seq<char>>)
    requires
        st.mode == TextMode::Suppressed,
    ensures
        feed_texts(st, ts).1 == Seq::<StepModel>::empty(),
    decreases ts.len(),
{
    if ts.len() > 0 {
        let r = on_event(st, DecodedModel::ContentDelta { kind: DeltaKind::Text, text: ts[0] });
        lemma_suppressed_stays(r.0, ts.drop_first());
        assert(r.1 + feed_texts(r.0, ts.drop_first()).1 =~= Seq::<StepModel>::empty());
    }
}

proof fn lemma_passthrough_stays(st: DecoderModel, ts: Seq<Seq<char>>)
    requires
        st.mode == TextMode::Passthrough,
    ensures
        feed_texts(st, ts).1 == text_steps(ts),
    decreases ts.len(),
{
    if ts.len() > 0 {
        let r = on_event(st, DecodedModel::ContentDelta { kind: DeltaKind::Text, text: ts[0] });
        lemma_passthrough_stays(r.0, ts.drop_first());
        assert(seq![text_step(ts[0])] + text_steps(ts.drop_first()) =~= text_steps(ts));
    }
}

/// The text mode is decided once, on the first non-empty text delta: if its
/// first character after whitespace is `{`, that delta and every later one is
/// withheld; otherwise every delta is forwarded live as a `Text` event. Empty
/// deltas before the decision are forwarded as they are.
pub proof fn lemma_classification_lock_in(st: DecoderModel, ts: Seq<Seq<char>>)
    requires
        st.mode == TextMode::Undecided,
    ensures
        feed_texts(st, ts).1 == ({
            let f = first_nonempty(ts);
            if f < ts.len() && brace_led(ts[f]) {
                text_steps(ts.subrange(0, f))
            } else {
                text_steps(ts)
            }
        }),
    decreases ts.len(),
{
    if ts.len() > 0 {
        let t = ts[0];
        let rest = ts.drop_first();
        let r = on_event(st, DecodedModel::ContentDelta { kind: DeltaKind::Text, text: t });
        let f = first_nonempty(ts);
        if t.len() == 0 {
            lemma_classification_lock_in(r.0, rest);
            let g = first_nonempty(rest);
            lemma_first_nonempty_bounds(rest);
            assert(f == 1 + g);
            if g < rest.len() && brace_led(rest[g]) {
                assert(ts[f] == rest[g]);
                assert(seq![text_step(t)] + text_steps(rest.subrange(0, g)) =~= text_steps(ts.subrange(0, f)));
            } else {
                if f < ts.len() {
                    assert(ts[f] == rest[g]);
                }
                assert(seq![text_step(t)] + text_steps(rest) =~= text_steps(ts));
            }
        } else if crate::decoder::brace_led(t) {
            assert(f == 0);
            lemma_suppressed_stays(r.0, rest);
            assert(r.1 + feed_texts(r.0, rest).1 =~= text_steps(ts.subrange(0, 0)));
        } else {
            assert(f == 0);
            lemma_passthrough_stays(r.0, rest);
            assert(seq![text_step(t)] + text_steps(rest) =~= text_steps(ts));
        }
    }
}

} // verus!
