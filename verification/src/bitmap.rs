//! Sets of fragment ids, as bitmaps of the `roaring` crate.

use vstd::prelude::*;

verus! {

/// The bitmap type of the `roaring` crate.
#[verifier::external_type_specification]
#[verifier::external_body]
pub struct ExRoaringBitmap(roaring::RoaringBitmap);

/// The values that a bitmap holds.
pub uninterp spec fn bitmap_ids(bitmap: roaring::RoaringBitmap) -> Set<u32>;

/// The values that an optional bitmap holds.
pub open spec fn opt_ids(bitmap: Option<roaring::RoaringBitmap>) -> Option<Set<u32>> {
    match bitmap {
        Some(b) => Some(bitmap_ids(b)),
        None => None,
    }
}

/// Calls `RoaringBitmap::clone`. The copy holds the same values.
#[verifier::external_body]
pub(crate) fn copy_bitmap(bitmap: &roaring::RoaringBitmap) -> (r: roaring::RoaringBitmap)
    ensures
        bitmap_ids(r) == bitmap_ids(*bitmap),
{
    bitmap.clone()
}

/// Calls `RoaringBitmap::contains`, which tells whether the bitmap holds a value.
#[verifier::external_body]
pub(crate) fn bitmap_contains(bitmap: &roaring::RoaringBitmap, value: u32) -> (r: bool)
    ensures
        r == bitmap_ids(*bitmap).contains(value),
{
    bitmap.contains(value)
}

/// Calls `RoaringBitmap::remove`, which takes a value out of the bitmap and tells
/// whether it was there.
#[verifier::external_body]
pub(crate) fn bitmap_remove(bitmap: &mut roaring::RoaringBitmap, value: u32) -> (r: bool)
    ensures
        bitmap_ids(*final(bitmap)) == bitmap_ids(*old(bitmap)).remove(value),
        r == bitmap_ids(*old(bitmap)).contains(value),
{
    bitmap.remove(value)
}

/// Calls `RoaringBitmap::extend`, which adds values to the bitmap.
#[verifier::external_body]
pub(crate) fn bitmap_extend(bitmap: &mut roaring::RoaringBitmap, values: Vec<u32>)
    ensures
        bitmap_ids(*final(bitmap)) == bitmap_ids(*old(bitmap)).union(values@.to_set()),
{
    bitmap.extend(values)
}

/// Calls `RoaringBitmap::iter` and collects what it yields: each value of the bitmap
/// once, in ascending order.
#[verifier::external_body]
pub(crate) fn bitmap_values(bitmap: &roaring::RoaringBitmap) -> (r: Vec<u32>)
    ensures
        r@.to_set() == bitmap_ids(*bitmap),
        forall|i: int, j: int| 0 <= i < j < r@.len() ==> #[trigger] r@[i] < #[trigger] r@[j],
{
    bitmap.iter().collect()
}

/// Two ascending lists of the same values are the same list.
proof fn lemma_ascending(a: Seq<u32>, b: Seq<u32>)
    requires
        a.to_set() == b.to_set(),
        forall|i: int, j: int| 0 <= i < j < a.len() ==> #[trigger] a[i] < #[trigger] a[j],
        forall|i: int, j: int| 0 <= i < j < b.len() ==> #[trigger] b[i] < #[trigger] b[j],
    ensures
        a == b,
    decreases a.len(),
{
    if a.len() == 0 {
        if b.len() > 0 {
            assert(b.to_set().contains(b[0]));
            assert(a.contains(b[0]));
        }
        assert(a =~= b);
    } else if b.len() == 0 {
        assert(a.to_set().contains(a[0]));
        assert(b.contains(a[0]));
    } else {
        assert(a.to_set().contains(a.last()));
        assert(b.to_set().contains(b.last()));
        assert(b.contains(a.last()));
        assert(a.contains(b.last()));
        let i = choose|i: int| 0 <= i < b.len() && b[i] == a.last();
        let j = choose|j: int| 0 <= j < a.len() && a[j] == b.last();
        assert(a.last() == b.last());
        let x = a.drop_last();
        let y = b.drop_last();
        assert forall|v: u32| x.to_set().contains(v) <==> y.to_set().contains(v) by {
            if x.contains(v) {
                let k = choose|k: int| 0 <= k < x.len() && x[k] == v;
                assert(a[k] == v);
                assert(a.to_set().contains(v));
                assert(b.contains(v));
                let m = choose|m: int| 0 <= m < b.len() && b[m] == v;
                assert(a[k] < a[a.len() - 1]);
                assert(y[m] == v);
            }
            if y.contains(v) {
                let k = choose|k: int| 0 <= k < y.len() && y[k] == v;
                assert(b[k] == v);
                assert(b.to_set().contains(v));
                assert(a.contains(v));
                let m = choose|m: int| 0 <= m < a.len() && a[m] == v;
                assert(b[k] < b[b.len() - 1]);
                assert(x[m] == v);
            }
        }
        assert(x.to_set() =~= y.to_set());
        assert forall|i: int, j: int| 0 <= i < j < x.len() implies #[trigger] x[i]
            < #[trigger] x[j] by {
            assert(a[i] < a[j]);
        }
        assert forall|i: int, j: int| 0 <= i < j < y.len() implies #[trigger] y[i]
            < #[trigger] y[j] by {
            assert(b[i] < b[j]);
        }
        lemma_ascending(x, y);
        assert(a =~= x.push(a.last()));
        assert(b =~= y.push(b.last()));
    }
}

/// Whether two bitmaps hold the same values.
pub fn same_bitmap(a: &roaring::RoaringBitmap, b: &roaring::RoaringBitmap) -> (r: bool)
    ensures
        r == (bitmap_ids(*a) == bitmap_ids(*b)),
{
    let x = bitmap_values(a);
    let y = bitmap_values(b);
    let mut same: bool = x.len() == y.len();
    let mut i: usize = 0;
    while same && i < x.len()
        invariant
            i <= x@.len(),
            same ==> x@.len() == y@.len(),
            same ==> forall|j: int| 0 <= j < i ==> x@[j] == y@[j],
            !same ==> x@ != y@,
        decreases x@.len() - i,
    {
        if x[i] != y[i] {
            same = false;
        }
        i += 1;
    }
    proof {
        if same {
            assert(x@ =~= y@);
        } else if bitmap_ids(*a) == bitmap_ids(*b) {
            lemma_ascending(x@, y@);
        }
    }
    same
}

/// Whether two optional bitmaps hold the same values.
pub fn same_opt_bitmap(a: &Option<roaring::RoaringBitmap>, b: &Option<roaring::RoaringBitmap>) -> (r:
    bool)
    ensures
        r == (opt_ids(*a) == opt_ids(*b)),
{
    match (a, b) {
        (Some(x), Some(y)) => same_bitmap(x, y),
        (None, None) => true,
        _ => false,
    }
}

/// Copies an optional bitmap.
pub fn copy_opt_bitmap(bitmap: &Option<roaring::RoaringBitmap>) -> (r: Option<
    roaring::RoaringBitmap,
>)
    ensures
        opt_ids(r) == opt_ids(*bitmap),
{
    match bitmap {
        Some(b) => Some(copy_bitmap(b)),
        None => None,
    }
}

} // verus!
