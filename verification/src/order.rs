//! Ordered values and the extremes of a sequence.
//!
//! [`Ordered`] is the capability a column's target type needs before its
//! values can be compared: a relation in which any two values are comparable
//! and which is transitive. Distinct values may rank equally.

use vstd::prelude::*;

verus! {

/// A type whose values are ranked by a total, transitive relation.
pub trait Ordered: Sized {
    /// Whether `self` ranks no higher than `other`.
    spec fn at_most(self, other: Self) -> bool;

    /// Of any two values, one ranks no higher than the other.
    proof fn lemma_total(a: Self, b: Self)
        ensures
            a.at_most(b) || b.at_most(a),
    ;

    /// Ranking no higher carries over a middle value.
    proof fn lemma_transitive(a: Self, b: Self, c: Self)
        requires
            a.at_most(b),
            b.at_most(c),
        ensures
            a.at_most(c),
    ;

    /// Decides whether `self` ranks no higher than `other`.
    fn is_at_most(&self, other: &Self) -> (b: bool)
        ensures
            b == self.at_most(*other),
    ;
}

impl Ordered for i32 {
    open spec fn at_most(self, other: i32) -> bool {
        self <= other
    }

    proof fn lemma_total(a: i32, b: i32) {
    }

    proof fn lemma_transitive(a: i32, b: i32, c: i32) {
    }

    fn is_at_most(&self, other: &i32) -> (b: bool) {
        *self <= *other
    }
}

impl Ordered for i64 {
    open spec fn at_most(self, other: i64) -> bool {
        self <= other
    }

    proof fn lemma_total(a: i64, b: i64) {
    }

    proof fn lemma_transitive(a: i64, b: i64, c: i64) {
    }

    fn is_at_most(&self, other: &i64) -> (b: bool) {
        *self <= *other
    }
}

impl Ordered for u32 {
    open spec fn at_most(self, other: u32) -> bool {
        self <= other
    }

    proof fn lemma_total(a: u32, b: u32) {
    }

    proof fn lemma_transitive(a: u32, b: u32, c: u32) {
    }

    fn is_at_most(&self, other: &u32) -> (b: bool) {
        *self <= *other
    }
}

impl Ordered for u64 {
    open spec fn at_most(self, other: u64) -> bool {
        self <= other
    }

    proof fn lemma_total(a: u64, b: u64) {
    }

    proof fn lemma_transitive(a: u64, b: u64, c: u64) {
    }

    fn is_at_most(&self, other: &u64) -> (b: bool) {
        *self <= *other
    }
}

impl Ordered for usize {
    open spec fn at_most(self, other: usize) -> bool {
        self <= other
    }

    proof fn lemma_total(a: usize, b: usize) {
    }

    proof fn lemma_transitive(a: usize, b: usize, c: usize) {
    }

    fn is_at_most(&self, other: &usize) -> (b: bool) {
        *self <= *other
    }
}

/// Whether `a` and `b` rank equally.
pub open spec fn same_rank<T: Ordered>(a: T, b: T) -> bool {
    a.at_most(b) && b.at_most(a)
}

/// Whether position `k` of `s` holds a greatest element and every element
/// after it ranks lower: of several greatest elements, `k` is the last.
pub open spec fn is_max_at<T: Ordered>(s: Seq<T>, k: int) -> bool {
    &&& 0 <= k < s.len()
    &&& forall|i: int| 0 <= i < s.len() ==> (#[trigger] s[i]).at_most(s[k])
    &&& forall|i: int| k < i < s.len() ==> !s[k].at_most(#[trigger] s[i])
}

/// Whether position `k` of `s` holds a least element and every element
/// before it ranks higher: of several least elements, `k` is the first.
pub open spec fn is_min_at<T: Ordered>(s: Seq<T>, k: int) -> bool {
    &&& 0 <= k < s.len()
    &&& forall|i: int| 0 <= i < s.len() ==> s[k].at_most(#[trigger] s[i])
    &&& forall|i: int| 0 <= i < k ==> !(#[trigger] s[i]).at_most(s[k])
}

/// The greatest element of a non-empty `s`; of several, the last.
pub open spec fn max_of<T: Ordered>(s: Seq<T>) -> T {
    s[choose|k: int| is_max_at(s, k)]
}

/// The least element of a non-empty `s`; of several, the first.
pub open spec fn min_of<T: Ordered>(s: Seq<T>) -> T {
    s[choose|k: int| is_min_at(s, k)]
}

/// A sequence has at most one position that `is_max_at` accepts.
pub proof fn lemma_max_position_unique<T: Ordered>(s: Seq<T>, j: int, k: int)
    requires
        is_max_at(s, j),
        is_max_at(s, k),
    ensures
        j == k,
{
    if j < k {
        assert(s[j].at_most(s[k]));
        assert(!s[j].at_most(s[k]));
    } else if k < j {
        assert(s[k].at_most(s[j]));
        assert(!s[k].at_most(s[j]));
    }
}

/// A sequence has at most one position that `is_min_at` accepts.
pub proof fn lemma_min_position_unique<T: Ordered>(s: Seq<T>, j: int, k: int)
    requires
        is_min_at(s, j),
        is_min_at(s, k),
    ensures
        j == k,
{
    if j < k {
        assert(s[j].at_most(s[k]));
        assert(!s[j].at_most(s[k]));
    } else if k < j {
        assert(s[k].at_most(s[j]));
        assert(!s[k].at_most(s[j]));
    }
}

/// Finds the position of the greatest element, the last of several; `None`
/// for an empty vector.
pub fn max_position<T: Ordered>(v: &Vec<T>) -> (found: Option<usize>)
    ensures
        match found {
            Some(k) => is_max_at(v@, k as int) && v@[k as int] == max_of(v@),
            None => v@.len() == 0,
        },
{
    if v.len() == 0 {
        return None;
    }
    let mut k: usize = 0;
    let mut i: usize = 1;
    proof {
        T::lemma_total(v@[0], v@[0]);
    }
    while i < v.len()
        invariant
            0 <= k < i <= v.len(),
            is_max_at(v@.take(i as int), k as int),
        decreases v.len() - i,
    {
        let ghost before = v@.take(i as int);
        let ghost after = v@.take(i + 1);
        if v[k].is_at_most(&v[i]) {
            assert forall|j: int| 0 <= j < after.len() implies (#[trigger] after[j]).at_most(
                after[i as int],
            ) by {
                if j < i {
                    assert(before[j].at_most(before[k as int]));
                    T::lemma_transitive(v@[j], v@[k as int], v@[i as int]);
                } else {
                    T::lemma_total(v@[i as int], v@[i as int]);
                }
            }
            k = i;
        } else {
            assert forall|j: int| 0 <= j < after.len() implies (#[trigger] after[j]).at_most(
                after[k as int],
            ) by {
                if j < i {
                    assert(before[j].at_most(before[k as int]));
                } else {
                    T::lemma_total(v@[k as int], v@[i as int]);
                }
            }
            assert forall|j: int| k < j < after.len() implies !after[k as int].at_most(
                #[trigger] after[j],
            ) by {
                if j < i {
                    assert(!before[k as int].at_most(before[j]));
                }
            }
        }
        i = i + 1;
    }
    proof {
        assert(v@.take(v.len() as int) =~= v@);
        lemma_max_position_unique(v@, k as int, choose|c: int| is_max_at(v@, c));
    }
    Some(k)
}

/// Finds the position of the least element, the first of several; `None` for
/// an empty vector.
pub fn min_position<T: Ordered>(v: &Vec<T>) -> (found: Option<usize>)
    ensures
        match found {
            Some(k) => is_min_at(v@, k as int) && v@[k as int] == min_of(v@),
            None => v@.len() == 0,
        },
{
    if v.len() == 0 {
        return None;
    }
    let mut k: usize = 0;
    let mut i: usize = 1;
    proof {
        T::lemma_total(v@[0], v@[0]);
    }
    while i < v.len()
        invariant
            0 <= k < i <= v.len(),
            is_min_at(v@.take(i as int), k as int),
        decreases v.len() - i,
    {
        let ghost before = v@.take(i as int);
        let ghost after = v@.take(i + 1);
        if v[k].is_at_most(&v[i]) {
            assert forall|j: int| 0 <= j < after.len() implies after[k as int].at_most(
                #[trigger] after[j],
            ) by {
                if j < i {
                    assert(before[k as int].at_most(before[j]));
                }
            }
            assert forall|j: int| 0 <= j < k implies !(#[trigger] after[j]).at_most(
                after[k as int],
            ) by {
                assert(!before[j].at_most(before[k as int]));
            }
        } else {
            proof {
                T::lemma_total(v@[k as int], v@[i as int]);
            }
            assert forall|j: int| 0 <= j < after.len() implies after[i as int].at_most(
                #[trigger] after[j],
            ) by {
                if j < i {
                    assert(before[k as int].at_most(before[j]));
                    T::lemma_transitive(v@[i as int], v@[k as int], v@[j]);
                } else {
                    T::lemma_total(v@[i as int], v@[i as int]);
                }
            }
            assert forall|j: int| 0 <= j < i implies !(#[trigger] after[j]).at_most(
                after[i as int],
            ) by {
                if after[j].at_most(after[i as int]) {
                    assert(before[k as int].at_most(before[j]));
                    T::lemma_transitive(v@[k as int], v@[j], v@[i as int]);
                }
            }
            k = i;
        }
        i = i + 1;
    }
    proof {
        assert(v@.take(v.len() as int) =~= v@);
        lemma_min_position_unique(v@, k as int, choose|c: int| is_min_at(v@, c));
    }
    Some(k)
}

} // verus!
