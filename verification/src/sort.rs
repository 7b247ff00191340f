//! Stable sorting of pairs by their first element.

use vstd::prelude::*;
use std::collections::VecDeque;
use crate::order::{Ordered, same_rank};

verus! {

/// Whether the first elements of `s` never step down from one pair to a
/// later one.
pub open spec fn sorted_by_first<T: Ordered>(s: Seq<(T, T)>) -> bool {
    forall|i: int, j: int|
        0 <= i < j < s.len() ==> (#[trigger] s[i]).0.at_most((#[trigger] s[j]).0)
}

/// The test that picks the pairs whose first element ranks equally with `key`.
pub open spec fn ranks_with<T: Ordered>(key: T) -> spec_fn((T, T)) -> bool {
    |pair: (T, T)| same_rank(pair.0, key)
}

/// Whether the pairs of equal rank stand in `out` as they stand in `inp`: the
/// same pairs, in the same order, whatever the rank.
pub open spec fn keeps_ties_in_order<T: Ordered>(out: Seq<(T, T)>, inp: Seq<(T, T)>) -> bool {
    forall|key: T| out.filter(#[trigger] ranks_with(key)) == inp.filter(ranks_with(key))
}

/// Whether `out` is `inp` sorted by first element, pairs of equal rank left in
/// the order in which `inp` has them.
pub open spec fn is_stable_sort<T: Ordered>(out: Seq<(T, T)>, inp: Seq<(T, T)>) -> bool {
    &&& out.len() == inp.len()
    &&& sorted_by_first(out)
    &&& keeps_ties_in_order(out, inp)
}

/// A test that no element passes leaves nothing.
proof fn lemma_filter_none<A>(s: Seq<A>, pred: spec_fn(A) -> bool)
    requires
        forall|i: int| 0 <= i < s.len() ==> !pred(#[trigger] s[i]),
    ensures
        s.filter(pred) == Seq::<A>::empty(),
    decreases s.len(),
{
    reveal(Seq::filter);
    if s.len() > 0 {
        lemma_filter_none(s.drop_last(), pred);
    }
}

/// Filtering one element more adds that element where it passes the test.
proof fn lemma_filter_take_next<A>(s: Seq<A>, pred: spec_fn(A) -> bool, i: int)
    requires
        0 <= i < s.len(),
    ensures
        s.take(i + 1).filter(pred) == if pred(s[i]) {
            s.take(i).filter(pred).push(s[i])
        } else {
            s.take(i).filter(pred)
        },
{
    reveal(Seq::filter);
    assert(s.take(i + 1).drop_last() =~= s.take(i));
}

/// Merges two sorted queues into one. Where a pair of `left` and a pair of
/// `right` rank equally, the pair of `left` comes first.
fn merge<T: Ordered>(left: VecDeque<(T, T)>, right: VecDeque<(T, T)>) -> (out: VecDeque<(T, T)>)
    requires
        sorted_by_first(left@),
        sorted_by_first(right@),
    ensures
        out@.len() == left@.len() + right@.len(),
        sorted_by_first(out@),
        forall|key: T|
            out@.filter(#[trigger] ranks_with(key)) == left@.filter(ranks_with(key))
                + right@.filter(ranks_with(key)),
{
    let ghost ls = left@;
    let ghost rs = right@;
    let mut left = left;
    let mut right = right;
    let mut out: VecDeque<(T, T)> = VecDeque::new();
    let ghost mut i: int = 0;
    let ghost mut j: int = 0;
    proof {
        assert(ls.skip(0) =~= ls);
        assert(rs.skip(0) =~= rs);
        assert forall|key: T|
            out@.filter(#[trigger] ranks_with(key)) == ls.take(0).filter(ranks_with(key))
                + rs.take(0).filter(ranks_with(key)) by {
            reveal(Seq::filter);
            assert(ls.take(0) =~= Seq::<(T, T)>::empty());
            assert(rs.take(0) =~= Seq::<(T, T)>::empty());
            assert(out@ =~= Seq::<(T, T)>::empty());
            assert(out@.filter(ranks_with(key)) =~= ls.take(0).filter(ranks_with(key))
                + rs.take(0).filter(ranks_with(key)));
        }
    }
    while left.len() > 0 || right.len() > 0
        invariant
            left@ == ls.skip(i),
            right@ == rs.skip(j),
            merged_so_far(ls, rs, out@, i, j),
        decreases ls.len() - i + rs.len() - j,
    {
        let take_left = if left.len() == 0 {
            false
        } else if right.len() == 0 {
            true
        } else {
            left[0].0.is_at_most(&right[0].0)
        };
        if take_left {
            proof {
                lemma_take_left(ls, rs, out@, i, j);
            }
            let x = left.pop_front().unwrap();
            out.push_back(x);
            proof {
                assert(ls.skip(i).subrange(1, ls.skip(i).len() as int) =~= ls.skip(i + 1));
                i = i + 1;
            }
        } else {
            proof {
                lemma_take_right(ls, rs, out@, i, j);
            }
            let y = right.pop_front().unwrap();
            out.push_back(y);
            proof {
                assert(rs.skip(j).subrange(1, rs.skip(j).len() as int) =~= rs.skip(j + 1));
                j = j + 1;
            }
        }
    }
    proof {
        assert(ls.take(i) =~= ls);
        assert(rs.take(j) =~= rs);
    }
    out
}

/// The state of a merge: `out` holds the first `i` pairs of `ls` and the
/// first `j` pairs of `rs`, merged.
spec fn merged_so_far<T: Ordered>(
    ls: Seq<(T, T)>,
    rs: Seq<(T, T)>,
    out: Seq<(T, T)>,
    i: int,
    j: int,
) -> bool {
    &&& sorted_by_first(ls)
    &&& sorted_by_first(rs)
    &&& 0 <= i <= ls.len()
    &&& 0 <= j <= rs.len()
    &&& out.len() == i + j
    &&& sorted_by_first(out)
    &&& forall|k: int, m: int|
        0 <= k < out.len() && i <= m < ls.len() ==> (#[trigger] out[k]).0.at_most(
            (#[trigger] ls[m]).0,
        )
    &&& forall|k: int, m: int|
        0 <= k < out.len() && j <= m < rs.len() ==> (#[trigger] out[k]).0.at_most(
            (#[trigger] rs[m]).0,
        )
    &&& forall|n: int, m: int|
        0 <= n < j && i <= m < ls.len() ==> !(#[trigger] ls[m]).0.at_most((#[trigger] rs[n]).0)
    &&& forall|key: T|
        out.filter(#[trigger] ranks_with(key)) == ls.take(i).filter(ranks_with(key)) + rs.take(
            j,
        ).filter(ranks_with(key))
}

/// A merge may go on with the next pair of the left side when the right side
/// is used up or its next pair ranks no lower.
proof fn lemma_take_left<T: Ordered>(
    ls: Seq<(T, T)>,
    rs: Seq<(T, T)>,
    out: Seq<(T, T)>,
    i: int,
    j: int,
)
    requires
        merged_so_far(ls, rs, out, i, j),
        i < ls.len(),
        j < rs.len() ==> ls[i].0.at_most(rs[j].0),
    ensures
        merged_so_far(ls, rs, out.push(ls[i]), i + 1, j),
{
    let x = ls[i];
    let next = out.push(x);
    assert forall|a: int, b: int| 0 <= a < b < next.len() implies (#[trigger] next[a]).0.at_most(
        (#[trigger] next[b]).0,
    ) by {
        if b < out.len() {
            assert(out[a].0.at_most(out[b].0));
        } else {
            assert(out[a].0.at_most(ls[i].0));
        }
    }
    assert forall|k: int, m: int| 0 <= k < next.len() && i + 1 <= m < ls.len() implies (
    #[trigger] next[k]).0.at_most((#[trigger] ls[m]).0) by {
        if k < out.len() {
            assert(out[k].0.at_most(ls[m].0));
        } else {
            assert(ls[i].0.at_most(ls[m].0));
        }
    }
    assert forall|k: int, m: int| 0 <= k < next.len() && j <= m < rs.len() implies (
    #[trigger] next[k]).0.at_most((#[trigger] rs[m]).0) by {
        if k < out.len() {
            assert(out[k].0.at_most(rs[m].0));
        } else {
            if j < m {
                assert(rs[j].0.at_most(rs[m].0));
                T::lemma_transitive(x.0, rs[j].0, rs[m].0);
            }
        }
    }
    assert forall|key: T|
        next.filter(#[trigger] ranks_with(key)) == ls.take(i + 1).filter(ranks_with(key))
            + rs.take(j).filter(ranks_with(key)) by {
        let pred = ranks_with(key);
        let lf = ls.take(i).filter(pred);
        let rf = rs.take(j).filter(pred);
        assert(out.filter(pred) == lf + rf);
        lemma_filter_take_next(ls, pred, i);
        assert(next.drop_last() =~= out);
        assert(next.filter(pred) == if pred(x) {
            out.filter(pred).push(x)
        } else {
            out.filter(pred)
        }) by {
            reveal(Seq::filter);
        }
        if pred(x) {
            assert forall|n: int| 0 <= n < rs.take(j).len() implies !pred(
                #[trigger] rs.take(j)[n],
            ) by {
                let r = rs[n];
                assert(!ls[i].0.at_most(rs[n].0));
                if pred(r) {
                    T::lemma_transitive(x.0, key, r.0);
                }
            }
            lemma_filter_none(rs.take(j), pred);
            assert((lf + rf).push(x) =~= lf.push(x) + rf);
        }
    }
}

/// A merge may go on with the next pair of the right side when the left side
/// is used up or its next pair ranks higher.
proof fn lemma_take_right<T: Ordered>(
    ls: Seq<(T, T)>,
    rs: Seq<(T, T)>,
    out: Seq<(T, T)>,
    i: int,
    j: int,
)
    requires
        merged_so_far(ls, rs, out, i, j),
        j < rs.len(),
        i < ls.len() ==> !ls[i].0.at_most(rs[j].0),
    ensures
        merged_so_far(ls, rs, out.push(rs[j]), i, j + 1),
{
    let y = rs[j];
    let next = out.push(y);
    assert forall|a: int, b: int| 0 <= a < b < next.len() implies (#[trigger] next[a]).0.at_most(
        (#[trigger] next[b]).0,
    ) by {
        if b < out.len() {
            assert(out[a].0.at_most(out[b].0));
        } else {
            assert(out[a].0.at_most(rs[j].0));
        }
    }
    assert forall|k: int, m: int| 0 <= k < next.len() && i <= m < ls.len() implies (
    #[trigger] next[k]).0.at_most((#[trigger] ls[m]).0) by {
        if k < out.len() {
            assert(out[k].0.at_most(ls[m].0));
        } else {
            T::lemma_total(ls[i].0, y.0);
            if i < m {
                assert(ls[i].0.at_most(ls[m].0));
                T::lemma_transitive(y.0, ls[i].0, ls[m].0);
            }
        }
    }
    assert forall|k: int, m: int| 0 <= k < next.len() && j + 1 <= m < rs.len() implies (
    #[trigger] next[k]).0.at_most((#[trigger] rs[m]).0) by {
        if k < out.len() {
            assert(out[k].0.at_most(rs[m].0));
        } else {
            assert(rs[j].0.at_most(rs[m].0));
        }
    }
    assert forall|n: int, m: int| 0 <= n < j + 1 && i <= m < ls.len() implies !(
    #[trigger] ls[m]).0.at_most((#[trigger] rs[n]).0) by {
        if n < j {
            assert(!ls[m].0.at_most(rs[n].0));
        } else if ls[m].0.at_most(y.0) {
            if i < m {
                assert(ls[i].0.at_most(ls[m].0));
                T::lemma_transitive(ls[i].0, ls[m].0, y.0);
            }
        }
    }
    assert forall|key: T|
        next.filter(#[trigger] ranks_with(key)) == ls.take(i).filter(ranks_with(key)) + rs.take(
            j + 1,
        ).filter(ranks_with(key)) by {
        let pred = ranks_with(key);
        let lf = ls.take(i).filter(pred);
        let rf = rs.take(j).filter(pred);
        assert(out.filter(pred) == lf + rf);
        lemma_filter_take_next(rs, pred, j);
        assert(next.drop_last() =~= out);
        assert(next.filter(pred) == if pred(y) {
            out.filter(pred).push(y)
        } else {
            out.filter(pred)
        }) by {
            reveal(Seq::filter);
        }
        if pred(y) {
            assert((lf + rf).push(y) =~= lf + rf.push(y));
        }
    }
}

/// Sorts a queue of pairs by first element, pairs of equal rank left in order.
fn sort_queue<T: Ordered>(pairs: VecDeque<(T, T)>) -> (out: VecDeque<(T, T)>)
    ensures
        is_stable_sort(out@, pairs@),
    decreases pairs@.len(),
{
    let n = pairs.len();
    if n <= 1 {
        return pairs;
    }
    let ghost whole = pairs@;
    let mut left = pairs;
    let right = left.split_off(n / 2);
    let ghost front = left@;
    let ghost back = right@;
    let sorted_left = sort_queue(left);
    let sorted_right = sort_queue(right);
    let out = merge(sorted_left, sorted_right);
    proof {
        assert(whole =~= front + back);
        assert forall|key: T|
            out@.filter(#[trigger] ranks_with(key)) == whole.filter(ranks_with(key)) by {
            assert(sorted_left@.filter(ranks_with(key)) == front.filter(ranks_with(key)));
            assert(sorted_right@.filter(ranks_with(key)) == back.filter(ranks_with(key)));
            Seq::filter_distributes_over_add(front, back, ranks_with(key));
        }
    }
    out
}

/// Sorts pairs by their first element, lowest rank first. The sort is stable:
/// pairs whose first elements rank equally keep the order they came in.
pub fn sort_by_first<T: Ordered>(pairs: Vec<(T, T)>) -> (out: Vec<(T, T)>)
    ensures
        is_stable_sort(out@, pairs@),
        out@.to_multiset() == pairs@.to_multiset(),
{
    let ghost inp = pairs@;
    let mut queue: VecDeque<(T, T)> = VecDeque::new();
    for pair in it: pairs
        invariant
            it.seq() == inp,
            queue@ == inp.take(it.index()),
    {
        proof {
            assert(inp.take(it.index() + 1) =~= inp.take(it.index()).push(pair));
        }
        queue.push_back(pair);
    }
    proof {
        assert(inp.take(inp.len() as int) =~= inp);
    }
    let mut sorted = sort_queue(queue);
    let ghost all = sorted@;
    let mut out: Vec<(T, T)> = Vec::new();
    while sorted.len() > 0
        invariant
            out@ + sorted@ == all,
        decreases sorted@.len(),
    {
        let ghost rest = sorted@;
        let pair = sorted.pop_front().unwrap();
        proof {
            assert(out@.push(pair) + rest.subrange(1, rest.len() as int) =~= out@ + rest);
        }
        out.push(pair);
    }
    proof {
        assert(out@ =~= out@ + sorted@);
        lemma_stable_sort_permutes(inp, out@);
    }
    out
}

/// Two sorted sequences that hold, for every rank, the same pairs in the same
/// order are one and the same sequence.
pub proof fn lemma_sorted_with_same_ties_equal<T: Ordered>(y: Seq<(T, T)>, z: Seq<(T, T)>)
    requires
        y.len() == z.len(),
        sorted_by_first(y),
        sorted_by_first(z),
        keeps_ties_in_order(y, z),
    ensures
        y == z,
    decreases y.len(),
{
    if y.len() == 0 {
        assert(y =~= z);
    } else {
        let a = y.last();
        let b = z.last();
        let n = y.len() - 1;
        T::lemma_total(a.0, a.0);
        T::lemma_total(b.0, b.0);
        // A pair of z ranks with a, and a pair of y ranks with b.
        lemma_ranked_pair_exists(y, z, a.0);
        let p = choose|p: int| 0 <= p < z.len() && same_rank(z[p].0, a.0);
        lemma_ranked_pair_exists_back(y, z, b.0);
        let q = choose|q: int| 0 <= q < y.len() && same_rank(y[q].0, b.0);
        assert(a.0.at_most(b.0)) by {
            if p < n {
                assert(z[p].0.at_most(z[n].0));
                T::lemma_transitive(a.0, z[p].0, b.0);
            }
        }
        assert(b.0.at_most(a.0)) by {
            if q < n {
                assert(y[q].0.at_most(y[n].0));
                T::lemma_transitive(b.0, y[q].0, a.0);
            }
        }
        let at_a = ranks_with(a.0);
        assert(at_a(a) && at_a(b));
        assert(y.filter(at_a) == z.filter(at_a));
        assert(y.filter(at_a) == y.drop_last().filter(at_a).push(a)) by {
            reveal(Seq::filter);
        }
        assert(z.filter(at_a) == z.drop_last().filter(at_a).push(b)) by {
            reveal(Seq::filter);
        }
        assert(a == b) by {
            assert(y.filter(at_a).last() == a);
            assert(z.filter(at_a).last() == b);
        }
        assert forall|key: T|
            y.drop_last().filter(#[trigger] ranks_with(key)) == z.drop_last().filter(
                ranks_with(key),
            ) by {
            let pred = ranks_with(key);
            assert(y.filter(pred) == z.filter(pred));
            reveal(Seq::filter);
            if pred(a) {
                let yf = y.drop_last().filter(pred);
                let zf = z.drop_last().filter(pred);
                assert(yf.push(a) == zf.push(a));
                assert(yf =~= yf.push(a).drop_last());
                assert(zf =~= zf.push(a).drop_last());
            }
        }
        assert(sorted_by_first(y.drop_last())) by {
            assert forall|i: int, j: int| 0 <= i < j < y.drop_last().len() implies (
            #[trigger] y.drop_last()[i]).0.at_most((#[trigger] y.drop_last()[j]).0) by {
                assert(y[i].0.at_most(y[j].0));
            }
        }
        assert(sorted_by_first(z.drop_last())) by {
            assert forall|i: int, j: int| 0 <= i < j < z.drop_last().len() implies (
            #[trigger] z.drop_last()[i]).0.at_most((#[trigger] z.drop_last()[j]).0) by {
                assert(z[i].0.at_most(z[j].0));
            }
        }
        lemma_sorted_with_same_ties_equal(y.drop_last(), z.drop_last());
        assert(y =~= y.drop_last().push(a));
        assert(z =~= z.drop_last().push(b));
    }
}

/// Where `y` and `z` hold the same pairs of each rank and `y` has a pair that
/// ranks with `key`, `z` has one too.
proof fn lemma_ranked_pair_exists<T: Ordered>(y: Seq<(T, T)>, z: Seq<(T, T)>, key: T)
    requires
        keeps_ties_in_order(y, z),
        exists|i: int| 0 <= i < y.len() && same_rank(y[i].0, key),
    ensures
        exists|p: int| 0 <= p < z.len() && same_rank(z[p].0, key),
{
    let pred = ranks_with(key);
    let i = choose|i: int| 0 <= i < y.len() && same_rank(y[i].0, key);
    assert(pred(y[i]));
    y.lemma_filter_contains(pred, i);
    assert(y.filter(pred) == z.filter(pred));
    let f = z.filter(pred);
    assert(f.contains(y[i]));
    z.lemma_filter_contains_rev(pred, y[i]);
    assert(z.contains(y[i]));
    let p = choose|p: int| 0 <= p < z.len() && z[p] == y[i];
    assert(same_rank(z[p].0, key));
}

/// The same, from `z` to `y`.
proof fn lemma_ranked_pair_exists_back<T: Ordered>(y: Seq<(T, T)>, z: Seq<(T, T)>, key: T)
    requires
        keeps_ties_in_order(y, z),
        exists|i: int| 0 <= i < z.len() && same_rank(z[i].0, key),
    ensures
        exists|p: int| 0 <= p < y.len() && same_rank(y[p].0, key),
{
    assert(keeps_ties_in_order(z, y)) by {
        assert forall|k: T| z.filter(#[trigger] ranks_with(k)) == y.filter(ranks_with(k)) by {
            assert(y.filter(ranks_with(k)) == z.filter(ranks_with(k)));
        }
    }
    lemma_ranked_pair_exists(z, y, key);
}

/// An element that a test accepts occurs in a sequence as often as among the
/// elements that pass the test.
proof fn lemma_filter_keeps_count<A>(s: Seq<A>, pred: spec_fn(A) -> bool, e: A)
    requires
        pred(e),
    ensures
        s.filter(pred).to_multiset().count(e) == s.to_multiset().count(e),
    decreases s.len(),
{
    broadcast use vstd::multiset::group_multiset_axioms;

    reveal(Seq::filter);
    if s.len() == 0 {
    } else {
        let rest = s.drop_last();
        let last = s.last();
        lemma_filter_keeps_count(rest, pred, e);
        assert(s =~= rest.push(last));
        vstd::seq_lib::to_multiset_build(rest, last);
        if pred(last) {
            vstd::seq_lib::to_multiset_build(rest.filter(pred), last);
        }
    }
}

/// A stable sort rearranges: it holds every pair as often as the input does.
pub proof fn lemma_stable_sort_permutes<T: Ordered>(inp: Seq<(T, T)>, out: Seq<(T, T)>)
    requires
        is_stable_sort(out, inp),
    ensures
        out.to_multiset() == inp.to_multiset(),
{
    broadcast use vstd::multiset::group_multiset_axioms;

    assert forall|e: (T, T)| out.to_multiset().count(e) == inp.to_multiset().count(e) by {
        let pred = ranks_with(e.0);
        T::lemma_total(e.0, e.0);
        assert(pred(e));
        lemma_filter_keeps_count(out, pred, e);
        lemma_filter_keeps_count(inp, pred, e);
        assert(out.filter(pred) == inp.filter(pred));
    }
    assert(out.to_multiset() =~= inp.to_multiset());
}

/// A sequence has one stable sort: two results that both meet
/// `is_stable_sort` for the same input are equal.
pub proof fn lemma_stable_sort_unique<T: Ordered>(
    inp: Seq<(T, T)>,
    y: Seq<(T, T)>,
    z: Seq<(T, T)>,
)
    requires
        is_stable_sort(y, inp),
        is_stable_sort(z, inp),
    ensures
        y == z,
{
    assert(keeps_ties_in_order(y, z)) by {
        assert forall|key: T| y.filter(#[trigger] ranks_with(key)) == z.filter(
            ranks_with(key),
        ) by {
            assert(y.filter(ranks_with(key)) == inp.filter(ranks_with(key)));
            assert(z.filter(ranks_with(key)) == inp.filter(ranks_with(key)));
        }
    }
    lemma_sorted_with_same_ties_equal(y, z);
}

/// Sorting what is sorted already changes nothing: the stable sort of a
/// sequence that is sorted by first element is that sequence.
pub proof fn lemma_sort_of_sorted<T: Ordered>(inp: Seq<(T, T)>, out: Seq<(T, T)>)
    requires
        sorted_by_first(inp),
        is_stable_sort(out, inp),
    ensures
        out == inp,
{
    lemma_sorted_with_same_ties_equal(out, inp);
}

/// Sorting twice gives what sorting once gives.
pub proof fn lemma_sort_idempotent<T: Ordered>(
    inp: Seq<(T, T)>,
    once: Seq<(T, T)>,
    twice: Seq<(T, T)>,
)
    requires
        is_stable_sort(once, inp),
        is_stable_sort(twice, once),
    ensures
        twice == once,
{
    lemma_sort_of_sorted(once, twice);
}

} // verus!
