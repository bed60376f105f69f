//! What a batch of edits does, stated against the original line numbers, and
//! proved of the descending-order application that the patch engine performs.
use vstd::prelude::*;
use crate::document::{lines_of, pieces, join_lines, ends_with_newline};
use crate::patch::{
    Edit, well_formed, fits, apply_one, apply_in_order, insert_by_start, by_start_desc,
    apply_batch, patched_text, lemma_insert_at,
};

verus! {

/// Two ranges that share no line.
pub open spec fn disjoint(a: Edit, b: Edit) -> bool {
    a.end < b.start || b.end < a.start
}

/// The well-formed instructions of a batch pairwise share no line.
pub open spec fn non_overlapping(es: Seq<Edit>) -> bool {
    forall|j: int, k: int|
        0 <= j < es.len() && 0 <= k < es.len() && j != k && well_formed(#[trigger] es[j])
            && well_formed(#[trigger] es[k]) ==> disjoint(es[j], es[k])
}

/// Distinct well-formed instructions of the batch share no line.
pub open spec fn apart(es: Seq<Edit>) -> bool {
    forall|x: Edit, y: Edit|
        #[trigger] es.contains(x) && #[trigger] es.contains(y) && x != y && well_formed(x)
            && well_formed(y) ==> disjoint(x, y)
}

/// Among the well-formed instructions, each one lies wholly below those before it.
pub open spec fn chained(c: Seq<Edit>) -> bool {
    forall|j: int, k: int|
        0 <= j < k < c.len() && well_formed(#[trigger] c[j]) && well_formed(#[trigger] c[k])
            ==> c[k].end < c[j].start
}

pub open spec fn sorted_desc(c: Seq<Edit>) -> bool {
    forall|j: int, k: int| 0 <= j < k < c.len() ==> (#[trigger] c[k]).start <= (#[trigger] c[j]).start
}

/// `e` is an instruction of the batch that fits `n` lines and starts at line `i + 1`.
pub open spec fn starts_at(es: Seq<Edit>, n: int, i: int, e: Edit) -> bool {
    es.contains(e) && fits(e, n) && e.start == i + 1
}

/// The original lines from index `i` on, rewritten top to bottom: where an
/// instruction that fits starts, its range is replaced by its lines.
pub open spec fn rewrite_from(ls: Seq<Seq<char>>, es: Seq<Edit>, i: int) -> Seq<Seq<char>>
    decreases ls.len() - i,
{
    if i < 0 || i >= ls.len() {
        Seq::empty()
    } else if exists|e: Edit| starts_at(es, ls.len() as int, i, e) {
        let e = choose|e: Edit| starts_at(es, ls.len() as int, i, e);
        lines_of(e.text) + rewrite_from(ls, es, e.end as int)
    } else {
        seq![ls[i]] + rewrite_from(ls, es, i + 1)
    }
}

/// The document as the batch describes it against the original line numbers.
pub open spec fn rewritten(ls: Seq<Seq<char>>, es: Seq<Edit>) -> Seq<Seq<char>> {
    rewrite_from(ls, es, 0)
}

proof fn lemma_choose_unique(es: Seq<Edit>, n: int, i: int, x: Edit)
    requires
        apart(es),
        starts_at(es, n, i, x),
    ensures
        (choose|e: Edit| starts_at(es, n, i, e)) == x,
{
    let y = choose|e: Edit| starts_at(es, n, i, e);
    assert(starts_at(es, n, i, y));
    if y != x {
        assert(es.contains(x) && es.contains(y));
        assert(disjoint(x, y));
    }
}

proof fn lemma_chained_apart(c: Seq<Edit>)
    requires
        chained(c),
    ensures
        apart(c),
{
    assert forall|x: Edit, y: Edit|
        #[trigger] c.contains(x) && #[trigger] c.contains(y) && x != y && well_formed(x)
            && well_formed(y) implies disjoint(x, y) by {
        let j = choose|j: int| 0 <= j < c.len() && c[j] == x;
        let k = choose|k: int| 0 <= k < c.len() && c[k] == y;
        if j < k {
            assert(c[k].end < c[j].start);
        } else {
            assert(j != k);
            assert(c[j].end < c[k].start);
        }
    }
}

proof fn lemma_non_overlapping_apart(es: Seq<Edit>)
    requires
        non_overlapping(es),
    ensures
        apart(es),
{
    assert forall|x: Edit, y: Edit|
        #[trigger] es.contains(x) && #[trigger] es.contains(y) && x != y && well_formed(x)
            && well_formed(y) implies disjoint(x, y) by {
        let j = choose|j: int| 0 <= j < es.len() && es[j] == x;
        let k = choose|k: int| 0 <= k < es.len() && es[k] == y;
        assert(j != k);
        assert(well_formed(es[j]) && well_formed(es[k]));
    }
}

/// Batches with the same instructions that fit rewrite alike.
proof fn lemma_rewrite_same_candidates(ls: Seq<Seq<char>>, a: Seq<Edit>, b: Seq<Edit>, i: int)
    requires
        apart(a),
        apart(b),
        forall|x: Edit| (a.contains(x) && fits(x, ls.len() as int)) <==> (b.contains(x) && fits(x, ls.len() as int)),
    ensures
        rewrite_from(ls, a, i) == rewrite_from(ls, b, i),
    decreases ls.len() - i,
{
    let n = ls.len() as int;
    if i < 0 || i >= n {
    } else if exists|e: Edit| starts_at(a, n, i, e) {
        let x = choose|e: Edit| starts_at(a, n, i, e);
        assert(starts_at(b, n, i, x));
        lemma_choose_unique(a, n, i, x);
        lemma_choose_unique(b, n, i, x);
        lemma_rewrite_same_candidates(ls, a, b, x.end as int);
    } else {
        assert(!exists|e: Edit| starts_at(b, n, i, e)) by {
            if exists|e: Edit| starts_at(b, n, i, e) {
                let x = choose|e: Edit| starts_at(b, n, i, e);
                assert(starts_at(a, n, i, x));
            }
        }
        lemma_rewrite_same_candidates(ls, a, b, i + 1);
    }
}

/// Past the last line at which an instruction that fits starts, the rewrite is the original.
proof fn lemma_rewrite_tail(ls: Seq<Seq<char>>, es: Seq<Edit>, j: int)
    requires
        0 <= j <= ls.len(),
        forall|x: Edit| es.contains(x) && fits(x, ls.len() as int) ==> x.start <= j,
    ensures
        rewrite_from(ls, es, j) == ls.subrange(j, ls.len() as int),
    decreases ls.len() - j,
{
    let n = ls.len() as int;
    if j >= n {
        assert(ls.subrange(j, n) =~= Seq::<Seq<char>>::empty());
    } else {
        assert(!exists|e: Edit| starts_at(es, n, j, e));
        lemma_rewrite_tail(ls, es, j + 1);
        assert(ls.subrange(j, n) =~= seq![ls[j]] + ls.subrange(j + 1, n));
    }
}

/// Instructions that lie within `p` act on `p + q` as on `p`, leaving `q` in place.
proof fn lemma_apply_prefix(p: Seq<Seq<char>>, q: Seq<Seq<char>>, s: Seq<Edit>)
    requires
        chained(s),
        forall|k: int| 0 <= k < s.len() && well_formed(#[trigger] s[k]) ==> s[k].end <= p.len(),
    ensures
        apply_in_order(p + q, s) == apply_in_order(p, s) + q,
    decreases s.len(),
{
    if s.len() > 0 {
        let e = s[0];
        let rest = s.drop_first();
        assert(chained(rest)) by {
            assert forall|j: int, k: int|
                0 <= j < k < rest.len() && well_formed(#[trigger] rest[j]) && well_formed(#[trigger] rest[k])
                implies rest[k].end < rest[j].start by {
                assert(rest[j] == s[j + 1] && rest[k] == s[k + 1]);
            }
        }
        let p2 = apply_one(p, e);
        if well_formed(e) {
            assert(fits(e, p.len() as int));
            assert(fits(e, (p + q).len() as int));
            assert(apply_one(p + q, e) =~= p2 + q);
            assert forall|k: int| 0 <= k < rest.len() && well_formed(#[trigger] rest[k]) implies rest[k].end <= p2.len() by {
                assert(rest[k] == s[k + 1]);
                assert(s[k + 1].end < s[0].start);
            }
        } else {
            assert(apply_one(p + q, e) == p + q);
            assert forall|k: int| 0 <= k < rest.len() && well_formed(#[trigger] rest[k]) implies rest[k].end <= p2.len() by {
                assert(rest[k] == s[k + 1]);
            }
        }
        lemma_apply_prefix(p2, q, rest);
    }
}

/// Above the first instruction of a chain, the rewrite of the whole document
/// agrees with the rewrite of the lines above it by the other instructions.
proof fn lemma_rewrite_above(ls: Seq<Seq<char>>, c: Seq<Edit>, i: int)
    requires
        chained(c),
        c.len() > 0,
        fits(c[0], ls.len() as int),
        0 <= i <= c[0].start - 1,
    ensures
        rewrite_from(ls, c, i) == rewrite_from(ls.subrange(0, c[0].start - 1), c.drop_first(), i)
            + rewrite_from(ls, c, c[0].start - 1),
    decreases c[0].start - 1 - i,
{
    let m = c[0].start - 1;
    let p = ls.subrange(0, m);
    let rest = c.drop_first();
    let n = ls.len() as int;
    lemma_chained_apart(c);
    assert(chained(rest)) by {
        assert forall|j: int, k: int|
            0 <= j < k < rest.len() && well_formed(#[trigger] rest[j]) && well_formed(#[trigger] rest[k])
            implies rest[k].end < rest[j].start by {
            assert(rest[j] == c[j + 1] && rest[k] == c[k + 1]);
        }
    }
    lemma_chained_apart(rest);
    if i == m {
        assert(rewrite_from(p, rest, i) =~= Seq::<Seq<char>>::empty());
    } else {
        // The instructions that fit and start at line i + 1 are the same on both sides.
        assert forall|x: Edit| starts_at(c, n, i, x) <==> starts_at(rest, m, i, x) by {
            if starts_at(c, n, i, x) {
                let j = choose|j: int| 0 <= j < c.len() && c[j] == x;
                assert(j != 0);
                assert(rest[j - 1] == x);
                assert(c[j].end < c[0].start);
            }
            if starts_at(rest, m, i, x) {
                let j = choose|j: int| 0 <= j < rest.len() && rest[j] == x;
                assert(c[j + 1] == x);
            }
        }
        if exists|e: Edit| starts_at(c, n, i, e) {
            let x = choose|e: Edit| starts_at(c, n, i, e);
            assert(starts_at(rest, m, i, x));
            lemma_choose_unique(c, n, i, x);
            lemma_choose_unique(rest, m, i, x);
            lemma_rewrite_above(ls, c, x.end as int);
            assert(rewrite_from(ls, c, i) == lines_of(x.text) + rewrite_from(ls, c, x.end as int));
            assert(rewrite_from(p, rest, i) == lines_of(x.text) + rewrite_from(p, rest, x.end as int));
            assert((lines_of(x.text) + rewrite_from(p, rest, x.end as int)) + rewrite_from(ls, c, m)
                =~= lines_of(x.text) + (rewrite_from(p, rest, x.end as int) + rewrite_from(ls, c, m)));
        } else {
            assert(!exists|e: Edit| starts_at(rest, m, i, e));
            lemma_rewrite_above(ls, c, i + 1);
            assert(p[i] == ls[i]);
            assert((seq![p[i]] + rewrite_from(p, rest, i + 1)) + rewrite_from(ls, c, m)
                =~= seq![ls[i]] + (rewrite_from(p, rest, i + 1) + rewrite_from(ls, c, m)));
        }
    }
}

/// Applying a chain of instructions first to last rewrites the original lines.
proof fn lemma_chain_rewrites(ls: Seq<Seq<char>>, c: Seq<Edit>)
    requires
        chained(c),
    ensures
        apply_in_order(ls, c) == rewritten(ls, c),
    decreases c.len(),
{
    let n = ls.len() as int;
    if c.len() == 0 {
        lemma_rewrite_tail(ls, c, 0);
        assert(ls.subrange(0, n) =~= ls);
    } else {
        let e = c[0];
        let rest = c.drop_first();
        assert(chained(rest)) by {
            assert forall|j: int, k: int|
                0 <= j < k < rest.len() && well_formed(#[trigger] rest[j]) && well_formed(#[trigger] rest[k])
                implies rest[k].end < rest[j].start by {
                assert(rest[j] == c[j + 1] && rest[k] == c[k + 1]);
            }
        }
        lemma_chained_apart(c);
        lemma_chained_apart(rest);
        if fits(e, n) {
            let m = e.start - 1;
            let p = ls.subrange(0, m);
            let q = lines_of(e.text) + ls.subrange(e.end as int, n);
            assert(apply_one(ls, e) =~= p + q);
            assert forall|k: int| 0 <= k < rest.len() && well_formed(#[trigger] rest[k]) implies rest[k].end <= p.len() by {
                assert(rest[k] == c[k + 1]);
                assert(c[k + 1].end < c[0].start);
            }
            lemma_apply_prefix(p, q, rest);
            lemma_chain_rewrites(p, rest);
            // The rewrite: above the first instruction, at it, and below it.
            lemma_rewrite_above(ls, c, 0);
            assert(rewrite_from(p, rest, m) =~= Seq::<Seq<char>>::empty());
            assert(starts_at(c, n, m, e));
            lemma_choose_unique(c, n, m, e);
            assert(rewrite_from(ls, c, m) == lines_of(e.text) + rewrite_from(ls, c, e.end as int));
            assert forall|x: Edit| c.contains(x) && fits(x, n) implies x.start <= e.end by {
                let j = choose|j: int| 0 <= j < c.len() && c[j] == x;
                if j > 0 {
                    assert(c[j].end < c[0].start);
                }
            }
            lemma_rewrite_tail(ls, c, e.end as int);
            assert(rewritten(ls, c) =~= rewritten(p, rest) + q);
        } else {
            assert(apply_one(ls, e) == ls);
            lemma_chain_rewrites(ls, rest);
            assert forall|x: Edit| (c.contains(x) && fits(x, n)) <==> (rest.contains(x) && fits(x, n)) by {
                if c.contains(x) && fits(x, n) {
                    let j = choose|j: int| 0 <= j < c.len() && c[j] == x;
                    assert(j != 0);
                    assert(rest[j - 1] == x);
                }
                if rest.contains(x) {
                    let j = choose|j: int| 0 <= j < rest.len() && rest[j] == x;
                    assert(c[j + 1] == x);
                }
            }
            lemma_rewrite_same_candidates(ls, c, rest, 0);
        }
    }
}

proof fn lemma_split_point(s: Seq<Edit>, v: u64) -> (q: int)
    ensures
        0 <= q <= s.len(),
        forall|j: int| 0 <= j < q ==> s[j].start >= v,
        q == s.len() || s[q].start < v,
    decreases s.len(),
{
    if s.len() == 0 || s[0].start < v {
        0
    } else {
        let q = lemma_split_point(s.drop_first(), v);
        assert forall|j: int| 0 <= j < q + 1 implies s[j].start >= v by {
            if j > 0 {
                assert(s[j] == s.drop_first()[j - 1]);
            }
        }
        q + 1
    }
}

/// The descending order holds the batch's instructions, sorted, and, for a
/// non-overlapping batch, chained.
proof fn lemma_order(es: Seq<Edit>)
    requires
        non_overlapping(es),
    ensures
        forall|x: Edit| by_start_desc(es).contains(x) <==> es.contains(x),
        sorted_desc(by_start_desc(es)),
        chained(by_start_desc(es)),
    decreases es.len(),
{
    if es.len() > 0 {
        let init = es.drop_last();
        let e = es.last();
        assert(non_overlapping(init)) by {
            assert forall|j: int, k: int|
                0 <= j < init.len() && 0 <= k < init.len() && j != k && well_formed(#[trigger] init[j])
                    && well_formed(#[trigger] init[k]) implies disjoint(init[j], init[k]) by {
                assert(init[j] == es[j] && init[k] == es[k]);
            }
        }
        lemma_order(init);
        let s = by_start_desc(init);
        let q = lemma_split_point(s, e.start);
        lemma_insert_at(s, e, q);
        let r = s.insert(q, e);
        assert(by_start_desc(es) == r);
        // Every well-formed instruction already placed is disjoint from `e`.
        assert forall|k: int| 0 <= k < s.len() && well_formed(#[trigger] s[k]) && well_formed(e) implies disjoint(s[k], e) by {
            assert(s.contains(s[k]));
            assert(init.contains(s[k]));
            let m = choose|m: int| 0 <= m < init.len() && init[m] == s[k];
            assert(es[m] == s[k]);
            assert(es[es.len() - 1] == e);
        }
        assert forall|x: Edit| r.contains(x) <==> es.contains(x) by {
            if r.contains(x) {
                let j = choose|j: int| 0 <= j < r.len() && r[j] == x;
                if j < q {
                    assert(s[j] == x && s.contains(x) && init.contains(x));
                    let m = choose|m: int| 0 <= m < init.len() && init[m] == x;
                    assert(es[m] == x);
                } else if j == q {
                    assert(es[es.len() - 1] == x);
                } else {
                    assert(s[j - 1] == x && s.contains(x) && init.contains(x));
                    let m = choose|m: int| 0 <= m < init.len() && init[m] == x;
                    assert(es[m] == x);
                }
            }
            if es.contains(x) {
                let m = choose|m: int| 0 <= m < es.len() && es[m] == x;
                if m == es.len() - 1 {
                    assert(r[q] == x);
                } else {
                    assert(init[m] == x);
                    assert(init.contains(x));
                    assert(s.contains(x));
                    let j = choose|j: int| 0 <= j < s.len() && s[j] == x;
                    if j < q {
                        assert(r[j] == x);
                    } else {
                        assert(r[j + 1] == x);
                    }
                }
            }
        }
        assert forall|j: int, k: int| 0 <= j < k < r.len() implies (#[trigger] r[k]).start <= (#[trigger] r[j]).start by {
            if k < q {
                assert(r[j] == s[j] && r[k] == s[k]);
            } else if k == q {
                assert(r[j] == s[j]);
            } else if j < q {
                assert(r[j] == s[j] && r[k] == s[k - 1]);
            } else if j == q {
                assert(r[k] == s[k - 1]);
                assert(s[k - 1].start <= s[q].start);
            } else {
                assert(r[j] == s[j - 1] && r[k] == s[k - 1]);
            }
        }
        assert forall|j: int, k: int|
            0 <= j < k < r.len() && well_formed(#[trigger] r[j]) && well_formed(#[trigger] r[k])
            implies r[k].end < r[j].start by {
            if k < q {
                assert(r[j] == s[j] && r[k] == s[k]);
            } else if k == q {
                assert(r[j] == s[j]);
                assert(disjoint(s[j], e));
            } else if j < q {
                assert(r[j] == s[j] && r[k] == s[k - 1]);
            } else if j == q {
                assert(r[k] == s[k - 1]);
                assert(s[k - 1].start <= s[q].start);
                assert(disjoint(s[k - 1], e));
            } else {
                assert(r[j] == s[j - 1] && r[k] == s[k - 1]);
            }
        }
    }
}

/// A batch whose well-formed instructions do not overlap gives, applied
/// highest start first, exactly the document that rewriting the original
/// lines top to bottom gives: every instruction that fits the original
/// document replaces its original range, and none disturbs another's indices.
/// Instructions that start at 0, end before they start, or end past the last
/// line are dropped.
pub proof fn lemma_descending_matches_rewrite(ls: Seq<Seq<char>>, es: Seq<Edit>)
    requires
        non_overlapping(es),
    ensures
        apply_batch(ls, es) == rewritten(ls, es),
{
    lemma_order(es);
    let c = by_start_desc(es);
    lemma_chain_rewrites(ls, c);
    lemma_chained_apart(c);
    lemma_non_overlapping_apart(es);
    lemma_rewrite_same_candidates(ls, c, es, 0);
}

/// The order in which a non-overlapping batch lists its instructions does not
/// change what it does.
pub proof fn lemma_batch_order_irrelevant(ls: Seq<Seq<char>>, a: Seq<Edit>, b: Seq<Edit>)
    requires
        non_overlapping(a),
        non_overlapping(b),
        forall|x: Edit| a.contains(x) <==> b.contains(x),
    ensures
        apply_batch(ls, a) == apply_batch(ls, b),
{
    lemma_descending_matches_rewrite(ls, a);
    lemma_descending_matches_rewrite(ls, b);
    lemma_non_overlapping_apart(a);
    lemma_non_overlapping_apart(b);
    lemma_rewrite_same_candidates(ls, a, b, 0);
}

/// An instruction that starts at line 0 or ends past the last line is
/// dropped: the batch does what it does without it.
pub proof fn lemma_out_of_range_dropped(ls: Seq<Seq<char>>, es: Seq<Edit>, k: int)
    requires
        non_overlapping(es),
        0 <= k < es.len(),
        es[k].start == 0 || es[k].end > ls.len(),
    ensures
        apply_batch(ls, es) == apply_batch(ls, es.remove(k)),
{
    let r = es.remove(k);
    assert(non_overlapping(r)) by {
        assert forall|j: int, m: int|
            0 <= j < r.len() && 0 <= m < r.len() && j != m && well_formed(#[trigger] r[j])
                && well_formed(#[trigger] r[m]) implies disjoint(r[j], r[m]) by {
            let jj = if j < k { j } else { j + 1 };
            let mm = if m < k { m } else { m + 1 };
            assert(r[j] == es[jj] && r[m] == es[mm]);
        }
    }
    lemma_descending_matches_rewrite(ls, es);
    lemma_descending_matches_rewrite(ls, r);
    lemma_non_overlapping_apart(es);
    lemma_non_overlapping_apart(r);
    let n = ls.len() as int;
    assert forall|x: Edit| (es.contains(x) && fits(x, n)) <==> (r.contains(x) && fits(x, n)) by {
        if es.contains(x) && fits(x, n) {
            let j = choose|j: int| 0 <= j < es.len() && es[j] == x;
            assert(j != k);
            if j < k {
                assert(r[j] == x);
            } else {
                assert(r[j - 1] == x);
            }
        }
        if r.contains(x) {
            let j = choose|j: int| 0 <= j < r.len() && r[j] == x;
            if j < k {
                assert(es[j] == x);
            } else {
                assert(es[j + 1] == x);
            }
        }
    }
    lemma_rewrite_same_candidates(ls, es, r, 0);
}

proof fn lemma_join_pieces(s: Seq<char>)
    ensures
        pieces(s).len() >= 1,
        join_lines(pieces(s)) == s,
        (pieces(s).last().len() == 0) == (s.len() == 0 || s.last() == '\n'),
    decreases s.len(),
{
    if s.len() > 0 {
        let init = s.drop_last();
        lemma_join_pieces(init);
        let p = pieces(init);
        if s.last() == '\n' {
            let r = p.push(Seq::<char>::empty());
            assert(r.drop_last() =~= p);
            assert(join_lines(r) =~= s);
        } else {
            let r = p.update(p.len() - 1, p.last().push(s.last()));
            if p.len() == 1 {
                assert(join_lines(r) =~= s);
            } else {
                assert(r.drop_last() =~= p.drop_last());
                assert(join_lines(r) == join_lines(p.drop_last()) + seq!['\n'] + p.last().push(s.last()));
                assert(join_lines(p) == join_lines(p.drop_last()) + seq!['\n'] + p.last());
                assert(init.push(s.last()) =~= s);
                assert(join_lines(r) =~= s);
            }
        }
    }
}

/// An empty batch leaves the text as it was, except that a run of line feeds
/// at its end loses its last one: lines are rejoined, and one final line feed
/// is kept where the text had one.
pub proof fn lemma_empty_batch(s: Seq<char>)
    ensures
        patched_text(s, Seq::empty()) == if s.len() >= 2 && s.last() == '\n' && s[s.len() - 2] == '\n' {
            s.drop_last()
        } else {
            s
        },
{
    let ls = lines_of(s);
    assert(by_start_desc(Seq::<Edit>::empty()) == Seq::<Edit>::empty());
    assert(apply_batch(ls, Seq::empty()) == ls);
    lemma_join_pieces(s);
    if s.len() > 0 && s.last() == '\n' {
        lemma_join_pieces(s.drop_last());
        assert(pieces(s).drop_last() =~= pieces(s.drop_last()));
        assert(join_lines(ls) == s.drop_last());
        if s.len() >= 2 && s[s.len() - 2] == '\n' {
            assert(ends_with_newline(s.drop_last()));
        } else {
            assert(s.drop_last().push('\n') =~= s);
        }
    }
}

} // verus!
