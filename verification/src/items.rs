//! Lists of values that can be copied and compared.

use vstd::prelude::*;
use crate::assoc::Item;
use crate::seqs::opt_view;
use crate::seqs::views;

verus! {

impl Item for i32 {
    fn copied(&self) -> (r: Self) {
        *self
    }

    fn same(&self, other: &Self) -> (r: bool) {
        *self == *other
    }
}

impl Item for u64 {
    fn copied(&self) -> (r: Self) {
        *self
    }

    fn same(&self, other: &Self) -> (r: bool) {
        *self == *other
    }
}

impl Item for u8 {
    fn copied(&self) -> (r: Self) {
        *self
    }

    fn same(&self, other: &Self) -> (r: bool) {
        *self == *other
    }
}

/// Copies a list.
pub fn copy_all<T: Item>(items: &Vec<T>) -> (r: Vec<T>)
    ensures
        views(r@) == views(items@),
{
    let mut out: Vec<T> = Vec::new();
    let mut i: usize = 0;
    while i < items.len()
        invariant
            i <= items@.len(),
            out@.len() == i,
            forall|j: int| 0 <= j < i ==> (#[trigger] out@[j])@ == items@[j]@,
        decreases items@.len() - i,
    {
        out.push(items[i].copied());
        i += 1;
    }
    assert(views(out@) =~= views(items@));
    out
}

/// Whether two lists hold the same, in the same order.
pub fn same_all<T: Item>(a: &Vec<T>, b: &Vec<T>) -> (r: bool)
    ensures
        r == (views(a@) == views(b@)),
{
    if a.len() != b.len() {
        assert(views(a@).len() != views(b@).len());
        return false;
    }
    let mut i: usize = 0;
    while i < a.len()
        invariant
            i <= a@.len(),
            a@.len() == b@.len(),
            forall|j: int| 0 <= j < i ==> (#[trigger] a@[j])@ == b@[j]@,
        decreases a@.len() - i,
    {
        if !a[i].same(&b[i]) {
            assert(views(a@)[i as int] != views(b@)[i as int]);
            return false;
        }
        i += 1;
    }
    assert(views(a@) =~= views(b@));
    true
}

/// Whether a list holds a value.
pub fn holds<T: Item>(items: &[T], item: &T) -> (r: bool)
    ensures
        r == views(items@).contains(item@),
{
    let mut i: usize = 0;
    while i < items.len()
        invariant
            i <= items@.len(),
            forall|j: int| 0 <= j < i ==> (#[trigger] views(items@)[j]) != item@,
        decreases items@.len() - i,
    {
        assert(views(items@)[i as int] == items@[i as int]@);
        if items[i].same(item) {
            return true;
        }
        i += 1;
    }
    false
}

/// Copies an optional value.
pub fn copy_opt<T: Item>(o: &Option<T>) -> (r: Option<T>)
    ensures
        opt_view(r) == opt_view(*o),
{
    match o {
        Some(x) => Some(x.copied()),
        None => None,
    }
}

/// Whether two optional values are the same.
pub fn same_opt<T: Item>(a: &Option<T>, b: &Option<T>) -> (r: bool)
    ensures
        r == (opt_view(*a) == opt_view(*b)),
{
    match (a, b) {
        (Some(x), Some(y)) => x.same(y),
        (None, None) => true,
        _ => false,
    }
}

/// A list that is there or not, as a mathematical value.
pub open spec fn opt_views<T: View>(o: Option<Vec<T>>) -> Option<Seq<T::V>> {
    match o {
        Some(v) => Some(views(v@)),
        None => None,
    }
}

/// Copies an optional list.
pub fn copy_opt_all<T: Item>(o: &Option<Vec<T>>) -> (r: Option<Vec<T>>)
    ensures
        opt_views(r) == opt_views(*o),
{
    match o {
        Some(v) => Some(copy_all(v)),
        None => None,
    }
}

/// Whether two optional lists are the same.
pub fn same_opt_all<T: Item>(a: &Option<Vec<T>>, b: &Option<Vec<T>>) -> (r: bool)
    ensures
        r == (opt_views(*a) == opt_views(*b)),
{
    match (a, b) {
        (Some(x), Some(y)) => same_all(x, y),
        (None, None) => true,
        _ => false,
    }
}

/// Whether two lists hold the same values, each as often, in any order.
pub open spec fn same_values<T>(a: Seq<T>, b: Seq<T>) -> bool {
    a.to_multiset() == b.to_multiset()
}

/// How often a list holds a value.
pub open spec fn count_in<T>(s: Seq<T>, x: T) -> nat
    decreases s.len(),
{
    if s.len() == 0 {
        0
    } else {
        count_in(s.drop_last(), x) + (if s.last() == x {
            1nat
        } else {
            0nat
        })
    }
}

/// A multiset counts as the list does.
pub proof fn lemma_count_in<T>(s: Seq<T>, x: T)
    ensures
        s.to_multiset().count(x) == count_in(s, x),
    decreases s.len(),
{
    if s.len() > 0 {
        lemma_count_in(s.drop_last(), x);
        s.drop_last().to_multiset_ensures();
        assert(s.drop_last().push(s.last()) =~= s);
    } else {
        s.to_multiset_ensures();
        assert(s =~= Seq::<T>::empty());
    }
}

fn count<T: Item>(items: &Vec<T>, x: &T) -> (r: usize)
    ensures
        r == count_in(views(items@), x@),
{
    let ghost all = views(items@);
    let mut n: usize = 0;
    let mut i: usize = 0;
    while i < items.len()
        invariant
            i <= items@.len(),
            n <= i,
            all == views(items@),
            n == count_in(all.take(i as int), x@),
        decreases items@.len() - i,
    {
        assert(all.take(i + 1).drop_last() =~= all.take(i as int));
        assert(all.take(i + 1).last() == items@[i as int]@);
        if items[i].same(x) {
            n += 1;
        }
        i += 1;
    }
    assert(all.take(all.len() as int) =~= all);
    n
}

fn counts_agree<T: Item>(a: &Vec<T>, b: &Vec<T>) -> (r: bool)
    ensures
        r == counts_match(views(a@), views(b@)),
{
    let mut i: usize = 0;
    while i < a.len()
        invariant
            i <= a@.len(),
            forall|j: int|
                0 <= j < i ==> count_in(views(a@), #[trigger] views(a@)[j]) == count_in(
                    views(b@),
                    views(a@)[j],
                ),
        decreases a@.len() - i,
    {
        assert(views(a@)[i as int] == a@[i as int]@);
        if count(a, &a[i]) != count(b, &a[i]) {
            return false;
        }
        i += 1;
    }
    true
}

proof fn lemma_counted<T>(s: Seq<T>, x: T)
    ensures
        count_in(s, x) > 0 <==> s.contains(x),
    decreases s.len(),
{
    if s.len() > 0 {
        lemma_counted(s.drop_last(), x);
        if s.contains(x) {
            let k = choose|k: int| 0 <= k < s.len() && s[k] == x;
            if k < s.len() - 1 {
                assert(s.drop_last()[k] == x);
            }
        }
        if s.drop_last().contains(x) {
            let k = choose|k: int| 0 <= k < s.drop_last().len() && s.drop_last()[k] == x;
            assert(s[k] == x);
        }
        if s.last() == x {
            assert(s[s.len() - 1] == x);
        }
    }
}

/// Whether two lists hold as much of each value of the first.
pub open spec fn counts_match<T>(a: Seq<T>, b: Seq<T>) -> bool {
    forall|i: int| 0 <= i < a.len() ==> count_in(a, #[trigger] a[i]) == count_in(b, a[i])
}

/// Lists hold the same values if they hold as much of each value of either.
pub proof fn lemma_counts_match<T>(s: Seq<T>, t: Seq<T>)
    ensures
        same_values(s, t) <==> counts_match(s, t) && counts_match(t, s),
{
    if counts_match(s, t) && counts_match(t, s) {
        assert forall|x: T| #[trigger] s.to_multiset().count(x) == t.to_multiset().count(x) by {
            lemma_count_in(s, x);
            lemma_count_in(t, x);
            lemma_counted(s, x);
            lemma_counted(t, x);
            if s.contains(x) {
                let i = choose|i: int| 0 <= i < s.len() && s[i] == x;
                assert(count_in(s, s[i]) == count_in(t, s[i]));
            } else if t.contains(x) {
                let i = choose|i: int| 0 <= i < t.len() && t[i] == x;
                assert(count_in(t, t[i]) == count_in(s, t[i]));
            }
        }
        assert(s.to_multiset() =~= t.to_multiset());
    }
    if same_values(s, t) {
        assert forall|i: int| 0 <= i < s.len() implies count_in(s, #[trigger] s[i]) == count_in(
            t,
            s[i],
        ) by {
            lemma_count_in(s, s[i]);
            lemma_count_in(t, s[i]);
        }
        assert forall|i: int| 0 <= i < t.len() implies count_in(t, #[trigger] t[i]) == count_in(
            s,
            t[i],
        ) by {
            lemma_count_in(s, t[i]);
            lemma_count_in(t, t[i]);
        }
    }
}

/// Whether two lists hold the same values, each as often, in any order.
pub fn compare_vec<T: Item>(a: &Vec<T>, b: &Vec<T>) -> (r: bool)
    ensures
        r == same_values(views(a@), views(b@)),
{
    proof {
        lemma_counts_match(views(a@), views(b@));
    }
    counts_agree(a, b) && counts_agree(b, a)
}

} // verus!
