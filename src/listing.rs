//! The list of documents offered to the user, in name order.
use vstd::prelude::*;
use crate::text::{text_less, less_text};

verus! {

/// `x` placed before the first name that orders after it.
pub open spec fn insert_name(s: Seq<Seq<char>>, x: Seq<char>) -> Seq<Seq<char>>
    decreases s.len(),
{
    if s.len() == 0 {
        seq![x]
    } else if text_less(x, s[0]) {
        seq![x] + s
    } else {
        seq![s[0]] + insert_name(s.drop_first(), x)
    }
}

/// The names in ascending string order.
pub open spec fn by_name(s: Seq<Seq<char>>) -> Seq<Seq<char>>
    decreases s.len(),
{
    if s.len() == 0 {
        s
    } else {
        insert_name(by_name(s.drop_last()), s.last())
    }
}

pub open spec fn names_view(v: Seq<String>) -> Seq<Seq<char>> {
    v.map_values(|s: String| s@)
}

proof fn lemma_insert_name_at(s: Seq<Seq<char>>, x: Seq<char>, q: int)
    requires
        0 <= q <= s.len(),
        forall|j: int| 0 <= j < q ==> !text_less(x, #[trigger] s[j]),
        q == s.len() || text_less(x, s[q]),
    ensures
        insert_name(s, x) == s.insert(q, x),
    decreases s.len(),
{
    if s.len() == 0 {
        assert(s.insert(q, x) =~= seq![x]);
    } else if q == 0 {
        assert(s.insert(q, x) =~= seq![x] + s);
    } else {
        let t = s.drop_first();
        assert forall|j: int| 0 <= j < q - 1 implies !text_less(x, #[trigger] t[j]) by {
            assert(t[j] == s[j + 1]);
        }
        lemma_insert_name_at(t, x, q - 1);
        assert(s.insert(q, x) =~= seq![s[0]] + t.insert(q - 1, x));
    }
}

/// The file names in ascending string order.
pub fn sorted_names(names: &Vec<String>) -> (r: Vec<String>)
    ensures
        names_view(r@) == by_name(names_view(names@)),
{
    let ghost nv = names_view(names@);
    let mut out: Vec<String> = Vec::new();
    let mut i: usize = 0;
    assert(nv.subrange(0, 0) =~= Seq::<Seq<char>>::empty());
    assert(names_view(out@) =~= Seq::<Seq<char>>::empty());
    while i < names.len()
        invariant
            nv == names_view(names@),
            i <= names@.len(),
            names_view(out@) == by_name(nv.subrange(0, i as int)),
        decreases names@.len() - i,
    {
        let x = names[i].clone();
        let mut q: usize = 0;
        while q < out.len() && !less_text(x.as_str(), out[q].as_str())
            invariant
                q <= out@.len(),
                forall|j: int| 0 <= j < q ==> !text_less(x@, #[trigger] names_view(out@)[j]),
            decreases out@.len() - q,
        {
            q = q + 1;
        }
        proof {
            lemma_insert_name_at(names_view(out@), x@, q as int);
            assert(nv.subrange(0, i + 1).drop_last() =~= nv.subrange(0, i as int));
        }
        let ghost ov = names_view(out@);
        out.insert(q, x);
        assert(names_view(out@) =~= ov.insert(q as int, nv[i as int]));
        i = i + 1;
    }
    assert(nv.subrange(0, names@.len() as int) =~= nv);
    out
}

} // verus!
