//! Patch engine: applies a batch of 1-based, inclusive line-range edits to a
//! document, highest start first, so that every index refers to the original.
use vstd::prelude::*;
use crate::document::{lines_of, lines_view, join_lines, ends_with_newline, split_lines, join_with_newlines, document_text, decode_document};
use crate::text::{chars_of, string_of};

verus! {

/// One edit instruction: replace lines `start..=end` (1-based) by the lines of
/// `replacement`; an empty replacement deletes the range.
pub struct EditInstruction {
    pub start: u64,
    pub end: u64,
    pub replacement: String,
}

/// The mathematical content of an edit instruction.
pub struct Edit {
    pub start: u64,
    pub end: u64,
    pub text: Seq<char>,
}

impl View for EditInstruction {
    type V = Edit;

    open spec fn view(&self) -> Edit {
        Edit { start: self.start, end: self.end, text: self.replacement@ }
    }
}

impl EditInstruction {
    pub fn new(start: u64, end: u64, replacement: String) -> (r: EditInstruction)
        ensures
            r@ == (Edit { start, end, text: replacement@ }),
    {
        EditInstruction { start, end, replacement }
    }
}

pub open spec fn edits_view(v: Seq<EditInstruction>) -> Seq<Edit> {
    v.map_values(|e: EditInstruction| e@)
}

/// A range that starts at line 1 or later and does not end before it starts.
pub open spec fn well_formed(e: Edit) -> bool {
    1 <= e.start && e.start <= e.end
}

/// A well-formed range that lies within a document of `n` lines.
pub open spec fn fits(e: Edit, n: int) -> bool {
    well_formed(e) && e.end <= n
}

/// One instruction applied to the lines as they stand; one that does not fit
/// them is dropped.
pub open spec fn apply_one(ls: Seq<Seq<char>>, e: Edit) -> Seq<Seq<char>> {
    if fits(e, ls.len() as int) {
        ls.subrange(0, e.start - 1) + lines_of(e.text) + ls.subrange(e.end as int, ls.len() as int)
    } else {
        ls
    }
}

/// The instructions applied one after the other, first to last.
pub open spec fn apply_in_order(ls: Seq<Seq<char>>, es: Seq<Edit>) -> Seq<Seq<char>>
    decreases es.len(),
{
    if es.len() == 0 {
        ls
    } else {
        apply_in_order(apply_one(ls, es[0]), es.drop_first())
    }
}

/// `e` placed into `s` after every instruction whose start is not below its own.
pub open spec fn insert_by_start(s: Seq<Edit>, e: Edit) -> Seq<Edit>
    decreases s.len(),
{
    if s.len() == 0 {
        seq![e]
    } else if s[0].start < e.start {
        seq![e] + s
    } else {
        seq![s[0]] + insert_by_start(s.drop_first(), e)
    }
}

/// The instructions ordered by descending start; equal starts keep their order.
pub open spec fn by_start_desc(es: Seq<Edit>) -> Seq<Edit>
    decreases es.len(),
{
    if es.len() == 0 {
        es
    } else {
        insert_by_start(by_start_desc(es.drop_last()), es.last())
    }
}

/// A batch applied to lines: highest start first.
pub open spec fn apply_batch(ls: Seq<Seq<char>>, es: Seq<Edit>) -> Seq<Seq<char>> {
    apply_in_order(ls, by_start_desc(es))
}

/// Lines joined by line feeds, with a final line feed added when `trailing`
/// holds and the joined text does not already end in one.
pub open spec fn render(ls: Seq<Seq<char>>, trailing: bool) -> Seq<char> {
    let j = join_lines(ls);
    if trailing && !ends_with_newline(j) {
        j.push('\n')
    } else {
        j
    }
}

/// The text of a document after a batch of edits.
pub open spec fn patched_text(s: Seq<char>, es: Seq<Edit>) -> Seq<char> {
    render(apply_batch(lines_of(s), es), ends_with_newline(s))
}

pub(crate) proof fn lemma_insert_at(s: Seq<Edit>, e: Edit, q: int)
    requires
        0 <= q <= s.len(),
        forall|j: int| 0 <= j < q ==> s[j].start >= e.start,
        q == s.len() || s[q].start < e.start,
    ensures
        insert_by_start(s, e) == s.insert(q, e),
    decreases s.len(),
{
    if s.len() == 0 {
        assert(s.insert(q, e) =~= seq![e]);
    } else if q == 0 {
        assert(s.insert(q, e) =~= seq![e] + s);
    } else {
        let t = s.drop_first();
        lemma_insert_at(t, e, q - 1);
        assert(s.insert(q, e) =~= seq![s[0]] + t.insert(q - 1, e));
    }
}

pub open spec fn selected(order: Seq<usize>, ev: Seq<Edit>) -> Seq<Edit> {
    order.map_values(|k: usize| ev[k as int])
}

/// The positions of the instructions, ordered by descending start (stable).
fn order_by_start_desc(edits: &Vec<EditInstruction>) -> (order: Vec<usize>)
    ensures
        forall|j: int| 0 <= j < order@.len() ==> order@[j] < edits@.len(),
        selected(order@, edits_view(edits@)) == by_start_desc(edits_view(edits@)),
{
    let ghost ev = edits_view(edits@);
    let mut order: Vec<usize> = Vec::new();
    let mut i: usize = 0;
    assert(ev.subrange(0, 0) =~= Seq::<Edit>::empty());
    assert(selected(order@, ev) =~= Seq::<Edit>::empty());
    while i < edits.len()
        invariant
            ev == edits_view(edits@),
            i <= edits@.len(),
            forall|j: int| 0 <= j < order@.len() ==> order@[j] < i,
            selected(order@, ev) == by_start_desc(ev.subrange(0, i as int)),
        decreases edits@.len() - i,
    {
        let start = edits[i].start;
        let mut q: usize = 0;
        while q < order.len() && edits[order[q]].start >= start
            invariant
                ev == edits_view(edits@),
                i < edits@.len(),
                start == ev[i as int].start,
                q <= order@.len(),
                forall|j: int| 0 <= j < order@.len() ==> order@[j] < i,
                forall|j: int| 0 <= j < q ==> selected(order@, ev)[j].start >= start,
            decreases order@.len() - q,
        {
            q = q + 1;
        }
        let ghost s = selected(order@, ev);
        proof {
            lemma_insert_at(s, ev[i as int], q as int);
            assert(ev.subrange(0, i + 1).drop_last() =~= ev.subrange(0, i as int));
        }
        order.insert(q, i);
        assert(selected(order@, ev) =~= s.insert(q as int, ev[i as int]));
        i = i + 1;
    }
    assert(ev.subrange(0, edits@.len() as int) =~= ev);
    order
}

/// Applies a batch of edit instructions to a document's text.
///
/// Instructions are taken by descending start (equal starts in batch order).
/// Each one that is well formed and fits the lines as they then stand replaces
/// its range by the lines of its replacement; any other is dropped. The lines
/// are joined by line feeds, and the result ends in a line feed if the
/// original text did.
pub fn apply_edits(content: &str, edits: &Vec<EditInstruction>) -> (r: String)
    ensures
        r@ == patched_text(content@, edits_view(edits@)),
{
    let ghost ev = edits_view(edits@);
    let chars = chars_of(content);
    let mut lines = split_lines(chars.as_slice());
    let order = order_by_start_desc(edits);
    let ghost sorted = selected(order@, ev);
    let ghost l0 = lines_view(lines@);
    let mut j: usize = 0;
    assert(sorted.subrange(0, sorted.len() as int) =~= sorted);
    while j < order.len()
        invariant
            ev == edits_view(edits@),
            sorted == selected(order@, ev),
            forall|k: int| 0 <= k < order@.len() ==> order@[k] < edits@.len(),
            j <= order@.len(),
            apply_in_order(lines_view(lines@), sorted.subrange(j as int, sorted.len() as int))
                == apply_in_order(l0, sorted),
        decreases order@.len() - j,
    {
        let e = &edits[order[j]];
        let ghost before = lines_view(lines@);
        proof {
            assert(sorted.subrange(j as int, sorted.len() as int).drop_first()
                =~= sorted.subrange(j + 1, sorted.len() as int));
            assert(sorted.subrange(j as int, sorted.len() as int)[0] == e@);
        }
        let n = lines.len() as u64;
        if 1 <= e.start && e.start <= e.end && e.end <= n {
            let repl_chars = chars_of(e.replacement.as_str());
            let mut repl = split_lines(repl_chars.as_slice());
            let mut tail = lines.split_off(e.end as usize);
            lines.truncate((e.start - 1) as usize);
            lines.append(&mut repl);
            lines.append(&mut tail);
            assert(lines_view(lines@) =~= apply_one(before, e@));
        } else {
            assert(apply_one(before, e@) == before);
        }
        j = j + 1;
    }
    assert(sorted.subrange(order@.len() as int, sorted.len() as int) =~= Seq::<Edit>::empty());
    let mut out = join_with_newlines(&lines);
    if chars.len() > 0 && chars[chars.len() - 1] == '\n' {
        if !(out.len() > 0 && out[out.len() - 1] == '\n') {
            out.push('\n');
        }
    }
    string_of(out.as_slice())
}

/// Decodes a document's bytes and applies a batch of edits to its text; the
/// result is the new content, to be written back as UTF-8.
pub fn patch_document(bytes: &[u8], edits: &Vec<EditInstruction>) -> (r: String)
    ensures
        r@ == patched_text(document_text(bytes@), edits_view(edits@)),
{
    let text = decode_document(bytes);
    apply_edits(text.as_str(), edits)
}

} // verus!
