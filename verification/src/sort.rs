//! A stable sort of items by a text key.
use crate::text::{text_less, text_lt};
use vstd::prelude::*;

verus! {

/// Inserts `x` after every element whose key is not greater than its own.
pub open spec fn insert_by_text<T>(s: Seq<(Seq<char>, T)>, x: (Seq<char>, T)) -> Seq<(Seq<char>, T)>
    decreases s.len(),
{
    if s.len() == 0 {
        seq![x]
    } else if text_lt(x.0, s[0].0) {
        seq![x] + s
    } else {
        seq![s[0]] + insert_by_text(s.drop_first(), x)
    }
}

/// The stable sort of `s` by key (what `sort_by` with a key comparison yields).
pub open spec fn sorted_by_text<T>(s: Seq<(Seq<char>, T)>) -> Seq<(Seq<char>, T)>
    decreases s.len(),
{
    if s.len() == 0 {
        Seq::empty()
    } else {
        insert_by_text(sorted_by_text(s.drop_last()), s.last())
    }
}

pub open spec fn text_keyed<T>(v: Seq<(Vec<char>, T)>) -> Seq<(Seq<char>, T)> {
    v.map_values(|p: (Vec<char>, T)| (p.0@, p.1))
}

proof fn lemma_insert_at<T>(s: Seq<(Seq<char>, T)>, x: (Seq<char>, T), p: int)
    requires
        0 <= p <= s.len(),
        forall|j: int| 0 <= j < p ==> !text_lt(x.0, #[trigger] s[j].0),
        p < s.len() ==> text_lt(x.0, s[p].0),
    ensures
        insert_by_text(s, x) == s.take(p) + seq![x] + s.skip(p),
    decreases s.len(),
{
    if s.len() == 0 {
        assert(s.take(p) + seq![x] + s.skip(p) =~= seq![x]);
    } else if p == 0 {
        assert(s.take(0) + seq![x] + s.skip(0) =~= seq![x] + s);
    } else {
        let t = s.drop_first();
        assert forall|j: int| 0 <= j < p - 1 implies !text_lt(x.0, #[trigger] t[j].0) by {
            assert(t[j] == s[j + 1]);
        }
        lemma_insert_at(t, x, p - 1);
        assert(seq![s[0]] + (t.take(p - 1) + seq![x] + t.skip(p - 1)) =~= s.take(p) + seq![x]
            + s.skip(p));
    }
}

/// Sorts the items stably by their text keys.
pub fn sort_by_text<T>(v: Vec<(Vec<char>, T)>) -> (r: Vec<(Vec<char>, T)>)
    ensures
        text_keyed(r@) == sorted_by_text(text_keyed(v@)),
{
    let ghost original = text_keyed(v@);
    let mut rest = v;
    let mut out: Vec<(Vec<char>, T)> = Vec::new();
    let mut i: usize = 0;
    let n = rest.len();
    while rest.len() > 0
        invariant
            n == original.len(),
            i + rest.len() == n,
            text_keyed(rest@) == original.skip(i as int),
            text_keyed(out@) == sorted_by_text(original.take(i as int)),
        decreases rest.len(),
    {
        let ghost old_rest = rest@;
        assert(text_keyed(old_rest)[0] == original[i as int]);
        let x = rest.remove(0);
        assert(text_keyed(rest@) =~= text_keyed(old_rest).drop_first());
        let mut p: usize = 0;
        while p < out.len() && !text_less(&x.0, &out[p].0)
            invariant
                p <= out.len(),
                forall|j: int| 0 <= j < p ==> !text_lt(x.0@, #[trigger] text_keyed(out@)[j].0),
            decreases out.len() - p,
        {
            p = p + 1;
        }
        let ghost before = text_keyed(out@);
        proof {
            lemma_insert_at(before, (x.0@, x.1), p as int);
            assert(original.take(i + 1).drop_last() =~= original.take(i as int));
            assert(original.take(i + 1).last() == (x.0@, x.1));
        }
        out.insert(p, x);
        assert(text_keyed(out@) =~= before.take(p as int) + seq![(x.0@, x.1)] + before.skip(p as int));
        i = i + 1;
        assert(text_keyed(rest@) =~= original.skip(i as int));
    }
    assert(original.take(n as int) =~= original);
    out
}

/// Inserts `x` after every element whose key is not smaller than its own.
pub open spec fn insert_by_text_desc<T>(s: Seq<(Seq<char>, T)>, x: (Seq<char>, T)) -> Seq<(Seq<char>, T)>
    decreases s.len(),
{
    if s.len() == 0 {
        seq![x]
    } else if text_lt(s[0].0, x.0) {
        seq![x] + s
    } else {
        seq![s[0]] + insert_by_text_desc(s.drop_first(), x)
    }
}

/// The stable sort of `s` by key, greatest first (what `sort_by` with the
/// reversed key comparison yields).
pub open spec fn sorted_by_text_desc<T>(s: Seq<(Seq<char>, T)>) -> Seq<(Seq<char>, T)>
    decreases s.len(),
{
    if s.len() == 0 {
        Seq::empty()
    } else {
        insert_by_text_desc(sorted_by_text_desc(s.drop_last()), s.last())
    }
}

proof fn lemma_insert_desc_at<T>(s: Seq<(Seq<char>, T)>, x: (Seq<char>, T), p: int)
    requires
        0 <= p <= s.len(),
        forall|j: int| 0 <= j < p ==> !text_lt(#[trigger] s[j].0, x.0),
        p < s.len() ==> text_lt(s[p].0, x.0),
    ensures
        insert_by_text_desc(s, x) == s.take(p) + seq![x] + s.skip(p),
    decreases s.len(),
{
    if s.len() == 0 {
        assert(s.take(p) + seq![x] + s.skip(p) =~= seq![x]);
    } else if p == 0 {
        assert(s.take(0) + seq![x] + s.skip(0) =~= seq![x] + s);
    } else {
        let t = s.drop_first();
        assert forall|j: int| 0 <= j < p - 1 implies !text_lt(#[trigger] t[j].0, x.0) by {
            assert(t[j] == s[j + 1]);
        }
        lemma_insert_desc_at(t, x, p - 1);
        assert(seq![s[0]] + (t.take(p - 1) + seq![x] + t.skip(p - 1)) =~= s.take(p) + seq![x]
            + s.skip(p));
    }
}

/// Sorts the items stably by their text keys, greatest first.
pub fn sort_by_text_desc<T>(v: Vec<(Vec<char>, T)>) -> (r: Vec<(Vec<char>, T)>)
    ensures
        text_keyed(r@) == sorted_by_text_desc(text_keyed(v@)),
{
    let ghost original = text_keyed(v@);
    let mut rest = v;
    let mut out: Vec<(Vec<char>, T)> = Vec::new();
    let mut i: usize = 0;
    let n = rest.len();
    while rest.len() > 0
        invariant
            n == original.len(),
            i + rest.len() == n,
            text_keyed(rest@) == original.skip(i as int),
            text_keyed(out@) == sorted_by_text_desc(original.take(i as int)),
        decreases rest.len(),
    {
        let ghost old_rest = rest@;
        assert(text_keyed(old_rest)[0] == original[i as int]);
        let x = rest.remove(0);
        assert(text_keyed(rest@) =~= text_keyed(old_rest).drop_first());
        let mut p: usize = 0;
        while p < out.len() && !text_less(&out[p].0, &x.0)
            invariant
                p <= out.len(),
                forall|j: int| 0 <= j < p ==> !text_lt(#[trigger] text_keyed(out@)[j].0, x.0@),
            decreases out.len() - p,
        {
            p = p + 1;
        }
        let ghost before = text_keyed(out@);
        proof {
            lemma_insert_desc_at(before, (x.0@, x.1), p as int);
            assert(original.take(i + 1).drop_last() =~= original.take(i as int));
            assert(original.take(i + 1).last() == (x.0@, x.1));
        }
        out.insert(p, x);
        assert(text_keyed(out@) =~= before.take(p as int) + seq![(x.0@, x.1)] + before.skip(p as int));
        i = i + 1;
        assert(text_keyed(rest@) =~= original.skip(i as int));
    }
    assert(original.take(n as int) =~= original);
    out
}

/// `a` outranks `b`: a higher score, or the same score and a higher count.
pub open spec fn rank_gt(a: (u8, u64), b: (u8, u64)) -> bool {
    a.0 > b.0 || (a.0 == b.0 && a.1 > b.1)
}

/// Places `x` after every element it does not outrank.
pub open spec fn insert_by_rank<T>(s: Seq<((u8, u64), T)>, x: ((u8, u64), T)) -> Seq<((u8, u64), T)>
    decreases s.len(),
{
    if s.len() == 0 {
        seq![x]
    } else if rank_gt(x.0, s[0].0) {
        seq![x] + s
    } else {
        seq![s[0]] + insert_by_rank(s.drop_first(), x)
    }
}

/// The stable sort by rank, highest first.
pub open spec fn sorted_by_rank<T>(s: Seq<((u8, u64), T)>) -> Seq<((u8, u64), T)>
    decreases s.len(),
{
    if s.len() == 0 {
        Seq::empty()
    } else {
        insert_by_rank(sorted_by_rank(s.drop_last()), s.last())
    }
}

proof fn lemma_insert_by_rank_at<T>(s: Seq<((u8, u64), T)>, x: ((u8, u64), T), p: int)
    requires
        0 <= p <= s.len(),
        forall|j: int| 0 <= j < p ==> !rank_gt(x.0, #[trigger] s[j].0),
        p < s.len() ==> rank_gt(x.0, s[p].0),
    ensures
        insert_by_rank(s, x) == s.take(p) + seq![x] + s.skip(p),
    decreases s.len(),
{
    if s.len() == 0 {
        assert(s.take(p) + seq![x] + s.skip(p) =~= seq![x]);
    } else if p == 0 {
        assert(s.take(0) + seq![x] + s.skip(0) =~= seq![x] + s);
    } else {
        let t = s.drop_first();
        assert forall|j: int| 0 <= j < p - 1 implies !rank_gt(x.0, #[trigger] t[j].0) by {
            assert(t[j] == s[j + 1]);
        }
        lemma_insert_by_rank_at(t, x, p - 1);
        assert(seq![s[0]] + (t.take(p - 1) + seq![x] + t.skip(p - 1)) =~= s.take(p) + seq![x]
            + s.skip(p));
    }
}

/// Sorts the items stably by rank, highest first.
pub fn sort_by_rank<T>(v: Vec<((u8, u64), T)>) -> (r: Vec<((u8, u64), T)>)
    ensures
        r@ == sorted_by_rank(v@),
{
    let ghost original = v@;
    let mut rest = v;
    let mut out: Vec<((u8, u64), T)> = Vec::new();
    let mut i: usize = 0;
    let n = rest.len();
    while rest.len() > 0
        invariant
            n == original.len(),
            i + rest.len() == n,
            rest@ == original.skip(i as int),
            out@ == sorted_by_rank(original.take(i as int)),
        decreases rest.len(),
    {
        let x = rest.remove(0);
        let mut p: usize = 0;
        while p < out.len() && !(x.0.0 > out[p].0.0 || (x.0.0 == out[p].0.0 && x.0.1 > out[p].0.1))
            invariant
                p <= out.len(),
                forall|j: int| 0 <= j < p ==> !rank_gt(x.0, #[trigger] out@[j].0),
            decreases out.len() - p,
        {
            p = p + 1;
        }
        proof {
            lemma_insert_by_rank_at(out@, x, p as int);
            assert(original.take(i + 1).drop_last() =~= original.take(i as int));
            assert(original.take(i + 1).last() == x);
        }
        out.insert(p, x);
        assert(out@ =~= sorted_by_rank(original.take(i + 1)));
        i = i + 1;
        assert(rest@ =~= original.skip(i as int));
    }
    assert(original.take(n as int) =~= original);
    out
}

} // verus!
