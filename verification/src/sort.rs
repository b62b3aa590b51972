//! Stable top-down merge sort over signed 32-bit integer buffers.
//!
//! `sort_array` returns a new buffer holding the same multiset of values in
//! non-decreasing order. The recursion splits a closed index range in half,
//! sorts both halves, and merges them out of place; the merge takes from the
//! left half on equal keys, which keeps the sort stable.

use vstd::prelude::*;
use vstd::seq_lib::lemma_multiset_commutative;
use vstd::seq_lib::lemma_sorted_unique;

verus! {

/// A sequence is in non-decreasing order.
pub open spec fn is_sorted(s: Seq<i32>) -> bool {
    forall|p: int, q: int| 0 <= p < q < s.len() ==> s[p] <= s[q]
}

/// Merges the two adjacent sorted ranges `[left, mid]` and `[mid+1, right]`
/// into one sorted range, preferring the left range on equal keys.
#[verifier::loop_isolation(false)]
#[verifier::rlimit(100)]
pub fn merge(arr: &mut Vec<i32>, left: usize, mid: usize, right: usize)
    requires
        left <= mid < right < old(arr).len(),
        is_sorted(old(arr)@.subrange(left as int, mid as int + 1)),
        is_sorted(old(arr)@.subrange(mid as int + 1, right as int + 1)),
    ensures
        final(arr).len() == old(arr).len(),
        is_sorted(final(arr)@.subrange(left as int, right as int + 1)),
        final(arr)@.subrange(left as int, right as int + 1).to_multiset()
            == old(arr)@.subrange(left as int, right as int + 1).to_multiset(),
        forall|p: int| 0 <= p < left ==> final(arr)@[p] == old(arr)@[p],
        forall|p: int| right < p < final(arr).len() ==> final(arr)@[p] == old(arr)@[p],
{
    broadcast use vstd::seq_lib::group_to_multiset_ensures;
    broadcast use vstd::multiset::group_multiset_axioms;

    let ghost orig = arr@;
    let n1 = mid - left + 1;
    let n2 = right - mid;

    let mut la: Vec<i32> = Vec::new();
    let mut t: usize = 0;
    while t < n1
        invariant
            t <= n1,
            la@ =~= arr@.subrange(left as int, left as int + t as int),
        decreases n1 - t,
    {
        la.push(arr[left + t]);
        t = t + 1;
    }
    let mut ra: Vec<i32> = Vec::new();
    t = 0;
    while t < n2
        invariant
            t <= n2,
            ra@ =~= arr@.subrange(mid as int + 1, mid as int + 1 + t as int),
        decreases n2 - t,
    {
        ra.push(arr[mid + 1 + t]);
        t = t + 1;
    }
    assert(la@ =~= orig.subrange(left as int, mid as int + 1));
    assert(ra@ =~= orig.subrange(mid as int + 1, right as int + 1));

    let mut i: usize = 0;
    let mut j: usize = 0;
    let mut k: usize = left;
    while i < n1 && j < n2
        invariant
            i <= n1,
            j <= n2,
            k == left + i + j,
            arr.len() == orig.len(),
            forall|p: int| 0 <= p < left ==> arr@[p] == orig[p],
            forall|p: int| right < p < arr.len() ==> arr@[p] == orig[p],
            is_sorted(arr@.subrange(left as int, k as int)),
            arr@.subrange(left as int, k as int).to_multiset()
                == la@.subrange(0, i as int).to_multiset().add(
                    ra@.subrange(0, j as int).to_multiset()),
            forall|p: int| left <= p < k && i < n1 ==> arr@[p] <= la@[i as int],
            forall|p: int| left <= p < k && j < n2 ==> arr@[p] <= ra@[j as int],
        decreases n1 - i + n2 - j,
    {
        let ghost prev = arr@.subrange(left as int, k as int);
        if la[i] <= ra[j] {
            arr.set(k, la[i]);
            proof {
                assert(arr@.subrange(left as int, k as int + 1) =~= prev.push(la@[i as int]));
                assert(la@.subrange(0, i as int + 1) =~= la@.subrange(0, i as int).push(
                    la@[i as int]));
                assert(arr@.subrange(left as int, k as int + 1).to_multiset()
                    == la@.subrange(0, i as int + 1).to_multiset().add(
                        ra@.subrange(0, j as int).to_multiset()));
            }
            i = i + 1;
        } else {
            arr.set(k, ra[j]);
            proof {
                assert(arr@.subrange(left as int, k as int + 1) =~= prev.push(ra@[j as int]));
                assert(ra@.subrange(0, j as int + 1) =~= ra@.subrange(0, j as int).push(
                    ra@[j as int]));
                assert(arr@.subrange(left as int, k as int + 1).to_multiset()
                    == la@.subrange(0, i as int).to_multiset().add(
                        ra@.subrange(0, j as int + 1).to_multiset()));
            }
            j = j + 1;
        }
        k = k + 1;
    }
    while i < n1
        invariant
            i <= n1,
            j <= n2,
            i < n1 ==> j == n2,
            k == left + i + j,
            arr.len() == orig.len(),
            forall|p: int| 0 <= p < left ==> arr@[p] == orig[p],
            forall|p: int| right < p < arr.len() ==> arr@[p] == orig[p],
            is_sorted(arr@.subrange(left as int, k as int)),
            arr@.subrange(left as int, k as int).to_multiset()
                == la@.subrange(0, i as int).to_multiset().add(
                    ra@.subrange(0, j as int).to_multiset()),
            forall|p: int| left <= p < k && i < n1 ==> arr@[p] <= la@[i as int],
            forall|p: int| left <= p < k && j < n2 ==> arr@[p] <= ra@[j as int],
        decreases n1 - i,
    {
        let ghost prev = arr@.subrange(left as int, k as int);
        arr.set(k, la[i]);
        proof {
            assert(arr@.subrange(left as int, k as int + 1) =~= prev.push(la@[i as int]));
            assert(la@.subrange(0, i as int + 1) =~= la@.subrange(0, i as int).push(
                la@[i as int]));
            assert(arr@.subrange(left as int, k as int + 1).to_multiset()
                == la@.subrange(0, i as int + 1).to_multiset().add(
                    ra@.subrange(0, j as int).to_multiset()));
        }
        i = i + 1;
        k = k + 1;
    }
    while j < n2
        invariant
            i == n1,
            j <= n2,
            k == left + i + j,
            arr.len() == orig.len(),
            forall|p: int| 0 <= p < left ==> arr@[p] == orig[p],
            forall|p: int| right < p < arr.len() ==> arr@[p] == orig[p],
            is_sorted(arr@.subrange(left as int, k as int)),
            arr@.subrange(left as int, k as int).to_multiset()
                == la@.subrange(0, i as int).to_multiset().add(
                    ra@.subrange(0, j as int).to_multiset()),
            forall|p: int| left <= p < k && j < n2 ==> arr@[p] <= ra@[j as int],
        decreases n2 - j,
    {
        let ghost prev = arr@.subrange(left as int, k as int);
        arr.set(k, ra[j]);
        proof {
            assert(arr@.subrange(left as int, k as int + 1) =~= prev.push(ra@[j as int]));
            assert(ra@.subrange(0, j as int + 1) =~= ra@.subrange(0, j as int).push(
                ra@[j as int]));
            assert(arr@.subrange(left as int, k as int + 1).to_multiset()
                == la@.subrange(0, i as int).to_multiset().add(
                    ra@.subrange(0, j as int + 1).to_multiset()));
        }
        j = j + 1;
        k = k + 1;
    }
    proof {
        assert(la@.subrange(0, i as int) =~= la@);
        assert(ra@.subrange(0, j as int) =~= ra@);
        lemma_multiset_commutative(la@, ra@);
        assert(la@ + ra@ =~= orig.subrange(left as int, right as int + 1));
    }
}

/// Sorts the closed index range `[left, right]` of `arr` in place by
/// recursive halving; positions outside the range are left untouched.
pub fn merge_sort_helper(arr: &mut Vec<i32>, left: usize, right: usize)
    requires
        left <= right < old(arr).len(),
    ensures
        final(arr).len() == old(arr).len(),
        is_sorted(final(arr)@.subrange(left as int, right as int + 1)),
        final(arr)@.subrange(left as int, right as int + 1).to_multiset()
            == old(arr)@.subrange(left as int, right as int + 1).to_multiset(),
        forall|p: int| 0 <= p < left ==> final(arr)@[p] == old(arr)@[p],
        forall|p: int| right < p < final(arr).len() ==> final(arr)@[p] == old(arr)@[p],
    decreases right - left,
{
    if left < right {
        broadcast use vstd::seq_lib::group_to_multiset_ensures;
        broadcast use vstd::multiset::group_multiset_axioms;

        let ghost orig = arr@;
        let mid = left + (right - left) / 2;
        merge_sort_helper(arr, left, mid);
        let ghost s1 = arr@;
        merge_sort_helper(arr, mid + 1, right);
        let ghost s2 = arr@;
        proof {
            assert(s2.subrange(left as int, mid as int + 1) =~= s1.subrange(
                left as int, mid as int + 1));
        }
        merge(arr, left, mid, right);
        proof {
            lemma_multiset_commutative(
                orig.subrange(left as int, mid as int + 1),
                orig.subrange(mid as int + 1, right as int + 1),
            );
            lemma_multiset_commutative(
                s2.subrange(left as int, mid as int + 1),
                s2.subrange(mid as int + 1, right as int + 1),
            );
            assert(orig.subrange(left as int, mid as int + 1) + orig.subrange(
                mid as int + 1, right as int + 1) =~= orig.subrange(
                left as int, right as int + 1));
            assert(s2.subrange(left as int, mid as int + 1) + s2.subrange(
                mid as int + 1, right as int + 1) =~= s2.subrange(
                left as int, right as int + 1));
            assert(s1.subrange(mid as int + 1, right as int + 1) =~= orig.subrange(
                mid as int + 1, right as int + 1));
        }
    }
}

/// Returns a new buffer with the same multiset of values as `data`, in
/// non-decreasing order. Sortedness and the shared multiset pin the output
/// uniquely (see `lemma_sorted_permutation_unique`).
pub fn sort_array(data: &Vec<i32>) -> (r: Vec<i32>)
    ensures
        r@.len() == data@.len(),
        is_sorted(r@),
        r@.to_multiset() == data@.to_multiset(),
{
    let mut arr: Vec<i32> = Vec::new();
    let mut t: usize = 0;
    while t < data.len()
        invariant
            t <= data.len(),
            arr@ =~= data@.subrange(0, t as int),
        decreases data.len() - t,
    {
        arr.push(data[t]);
        t = t + 1;
    }
    assert(arr@ =~= data@);
    let len = arr.len();
    if len > 0 {
        merge_sort_helper(&mut arr, 0, len - 1);
        assert(arr@.subrange(0, len as int) =~= arr@);
        assert(data@.subrange(0, len as int) =~= data@);
    }
    arr
}

/// Law: a sorted rearrangement is unique. Any two sorted sequences holding
/// the same multiset of values are equal. Together with `sort_array`'s
/// contract this gives that sorting an already-sorted sequence returns it
/// unchanged, and that sorting is idempotent: a second sort receives a
/// sorted sequence with the multiset of the first result, so it must return
/// that result itself.
pub proof fn lemma_sorted_permutation_unique(a: Seq<i32>, b: Seq<i32>)
    requires
        is_sorted(a),
        is_sorted(b),
        a.to_multiset() == b.to_multiset(),
    ensures
        a == b,
{
    let leq = |x: i32, y: i32| x <= y;
    assert(vstd::relations::sorted_by(a, leq));
    assert(vstd::relations::sorted_by(b, leq));
    assert(vstd::relations::total_ordering(leq));
    lemma_sorted_unique(a, b, leq);
    assert(a =~= b);
}

} // verus!
