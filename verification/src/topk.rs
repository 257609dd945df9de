//! Selection of the largest values of a sequence.
//!
//! `multi_max` keeps a bounded ascending buffer while streaming over its
//! input and returns the `count` largest values in ascending order.  The
//! contract `is_top_k` pins the result down as a multiset: the buffer holds
//! exactly `min(count, len)` values drawn from the input, and every value
//! that was left out is at most every value that was kept.  Together with
//! `lemma_top_k_unique` this determines the result completely, so the
//! selection does not depend on the order of the input.

use vstd::prelude::*;
use vstd::multiset::Multiset;

verus! {

broadcast use vstd::seq_lib::group_to_multiset_ensures;

/// The sequence is in ascending (non-decreasing) order.
pub open spec fn sorted(s: Seq<usize>) -> bool {
    forall|i: int, j: int| 0 <= i <= j < s.len() ==> s[i] <= s[j]
}

/// Every value of `rest` is at most every value of `kept`.
pub open spec fn below_all(rest: Multiset<usize>, kept: Multiset<usize>) -> bool {
    forall|x: usize, y: usize| rest.count(x) > 0 && kept.count(y) > 0 ==> x <= y
}

/// `r` is the ascending sequence of the `k` largest values of `s`:
/// it is sorted, it has `min(k, |s|)` values, those values are drawn from
/// `s`, and whatever `s` holds beyond them is at most every value kept.
pub open spec fn is_top_k(s: Seq<usize>, k: int, r: Seq<usize>) -> bool {
    &&& sorted(r)
    &&& r.len() == vstd::math::min(k, s.len() as int)
    &&& r.to_multiset().subset_of(s.to_multiset())
    &&& below_all(s.to_multiset().sub(r.to_multiset()), r.to_multiset())
}

/// Index of the first value of `r` that is strictly greater than `v`,
/// or `|r|` when there is none (for `r` sorted).
pub open spec fn insertion_point(r: Seq<usize>, v: usize) -> int
    decreases r.len(),
{
    if r.len() == 0 {
        0
    } else if r.last() <= v {
        r.len() as int
    } else {
        insertion_point(r.drop_last(), v)
    }
}

/// `r` with `v` inserted at its sorted position.
pub open spec fn insert_sorted(r: Seq<usize>, v: usize) -> Seq<usize> {
    r.insert(insertion_point(r, v), v)
}

/// What one incoming value does to the buffer: fill while there is room,
/// replace the least kept value when the incoming one is greater, and
/// otherwise leave the buffer alone.
pub open spec fn top_step(r: Seq<usize>, v: usize, k: int) -> Seq<usize> {
    if r.len() < k {
        insert_sorted(r, v)
    } else if k > 0 && r[0] < v {
        insert_sorted(r.subrange(1, r.len() as int), v)
    } else {
        r
    }
}

proof fn lemma_insertion_point(r: Seq<usize>, v: usize)
    requires
        sorted(r),
    ensures
        0 <= insertion_point(r, v) <= r.len(),
        forall|j: int| 0 <= j < insertion_point(r, v) ==> r[j] <= v,
        forall|j: int| insertion_point(r, v) <= j < r.len() ==> r[j] > v,
    decreases r.len(),
{
    if r.len() > 0 && r.last() > v {
        assert(sorted(r.drop_last()));
        lemma_insertion_point(r.drop_last(), v);
        let p = insertion_point(r.drop_last(), v);
        assert forall|j: int| p <= j < r.len() implies r[j] > v by {
            if j < r.len() - 1 {
                assert(r.drop_last()[j] == r[j]);
            }
        }
        assert forall|j: int| 0 <= j < p implies r[j] <= v by {
            assert(r.drop_last()[j] == r[j]);
        }
    }
}

proof fn lemma_insert_sorted(r: Seq<usize>, v: usize)
    requires
        sorted(r),
    ensures
        sorted(insert_sorted(r, v)),
        insert_sorted(r, v).len() == r.len() + 1,
        insert_sorted(r, v).to_multiset() == r.to_multiset().insert(v),
{
    lemma_insertion_point(r, v);
    let p = insertion_point(r, v);
    let out = r.insert(p, v);
    assert forall|i: int, j: int| 0 <= i <= j < out.len() implies out[i] <= out[j] by {
        assert(forall|m: int| 0 <= m < p ==> out[m] == r[m]);
        assert(out[p] == v);
        assert(forall|m: int| p < m < out.len() ==> out[m] == r[m - 1]);
    }
    assert(out.remove(p) =~= r);
    assert(out.remove(p).to_multiset() == out.to_multiset().remove(out[p]));
    assert(out.to_multiset().count(v) > 0) by {
        assert(out.contains(v)) by {
            assert(out[p] == v);
        }
    }
    assert(out.to_multiset() =~= r.to_multiset().insert(v)) by {
        assert(forall|x: usize|
            #[trigger] out.to_multiset().count(x) == r.to_multiset().insert(v).count(x)) by {
            assert(forall|x: usize|
                r.to_multiset().count(x) == out.to_multiset().remove(v).count(x));
        }
    }
}

/// A sequence whose multiset covers a multiset of the same total size is
/// exactly that multiset.
proof fn lemma_subset_same_len(m1: Multiset<usize>, m2: Multiset<usize>)
    requires
        m1.subset_of(m2),
        m1.len() == m2.len(),
    ensures
        m1 == m2,
{
    let d = m2.sub(m1);
    assert(d.len() == 0);
    assert forall|x: usize| #[trigger] m1.count(x) == m2.count(x) by {
        if m1.count(x) < m2.count(x) {
            assert(d.count(x) > 0);
            assert(d.len() >= d.count(x));
        }
    }
    assert(m1 =~= m2);
}

/// The heart of the loop: one step of the selection keeps `is_top_k` true
/// for the input extended by the incoming value.
pub proof fn lemma_top_step(s: Seq<usize>, k: int, r: Seq<usize>, v: usize)
    requires
        k >= 0,
        is_top_k(s, k, r),
    ensures
        is_top_k(s.push(v), k, top_step(r, v, k)),
{
    let m = s.to_multiset();
    let mp = s.push(v).to_multiset();
    assert(mp == m.insert(v));
    let rest = m.sub(r.to_multiset());
    if r.len() < k {
        // The buffer still has room, which means it already holds all of
        // `s`: the leftover multiset is empty.
        assert(r.len() == s.len());
        lemma_subset_same_len(r.to_multiset(), m);
        let out = insert_sorted(r, v);
        lemma_insert_sorted(r, v);
        assert(out.to_multiset() =~= mp);
        assert(mp.sub(out.to_multiset()) =~= Multiset::<usize>::empty());
    } else if k > 0 && r[0] < v {
        let tail = r.subrange(1, r.len() as int);
        assert(sorted(tail));
        let out = insert_sorted(tail, v);
        assert(tail =~= r.remove(0));
        assert(tail.to_multiset() == r.to_multiset().remove(r[0]));
        assert(r.to_multiset().count(r[0]) > 0) by {
            assert(r.contains(r[0]));
        }
        lemma_insert_sorted(tail, v);
        assert(out.to_multiset() =~= r.to_multiset().remove(r[0]).insert(v));
        assert(out.to_multiset().subset_of(mp)) by {
            assert(forall|x: usize|
                #[trigger] out.to_multiset().count(x) <= mp.count(x));
        }
        let restp = mp.sub(out.to_multiset());
        assert(restp =~= rest.insert(r[0]));
        assert forall|x: usize, y: usize|
            restp.count(x) > 0 && out.to_multiset().count(y) > 0 implies x <= y by {
            // Whatever `out` keeps is either the incoming value or a value the
            // old buffer kept; whatever joins the leftovers is the old least
            // kept value or was already left over.
            assert(r.to_multiset().count(r[0]) > 0);
            if y != v {
                assert(r.to_multiset().count(y) > 0);
                assert(r.contains(y));
                let i = choose|i: int| 0 <= i < r.len() && r[i] == y;
                assert(r[0] <= y);
            }
            if x != r[0] {
                assert(rest.count(x) > 0);
            } else {
                if y != v {
                    assert(r.to_multiset().count(y) > 0);
                }
            }
        }
        assert(is_top_k(s.push(v), k, out));
    } else {
        // The incoming value is at most the least kept value: it joins the
        // leftovers and the buffer stands.
        let restp = mp.sub(r.to_multiset());
        assert(restp =~= rest.insert(v));
        if k > 0 {
            assert(r.len() == k);
            assert forall|x: usize, y: usize|
                restp.count(x) > 0 && r.to_multiset().count(y) > 0 implies x <= y by {
                assert(r.contains(y));
                let i = choose|i: int| 0 <= i < r.len() && r[i] == y;
                assert(r[0] <= y);
            }
        } else {
            assert(r.len() == 0);
            assert(forall|y: usize| r.to_multiset().count(y) == 0);
        }
    }
}

/// For a fixed multiset of inputs there is only one ascending top-`k`
/// sequence: the characterisation in `is_top_k` pins the result down.
proof fn lemma_top_of_multiset_unique(m: Multiset<usize>, r1: Seq<usize>, r2: Seq<usize>)
    requires
        sorted(r1),
        sorted(r2),
        r1.len() == r2.len(),
        r1.to_multiset().subset_of(m),
        r2.to_multiset().subset_of(m),
        below_all(m.sub(r1.to_multiset()), r1.to_multiset()),
        below_all(m.sub(r2.to_multiset()), r2.to_multiset()),
    ensures
        r1 == r2,
    decreases r1.len(),
{
    if r1.len() == 0 {
        assert(r1 =~= r2);
    } else {
        let v1 = r1.last();
        let v2 = r2.last();
        assert(r1.to_multiset().count(v1) > 0) by {
            assert(r1.contains(v1));
        }
        assert(r2.to_multiset().count(v2) > 0) by {
            assert(r2.contains(v2));
        }
        // Each last value is a greatest value of `m`, so they are equal.
        assert(v1 <= v2) by {
            if m.sub(r2.to_multiset()).count(v1) > 0 {
            } else {
                assert(m.count(v1) > 0);
                assert(r2.to_multiset().count(v1) > 0);
                assert(r2.contains(v1));
                let i = choose|i: int| 0 <= i < r2.len() && r2[i] == v1;
                assert(r2[i] <= v2);
            }
        }
        assert(v2 <= v1) by {
            if m.sub(r1.to_multiset()).count(v2) > 0 {
            } else {
                assert(m.count(v2) > 0);
                assert(r1.to_multiset().count(v2) > 0);
                assert(r1.contains(v2));
                let i = choose|i: int| 0 <= i < r1.len() && r1[i] == v2;
                assert(r1[i] <= v1);
            }
        }
        let v = v1;
        let t1 = r1.drop_last();
        let t2 = r2.drop_last();
        assert(t1 =~= r1.remove(r1.len() - 1));
        assert(t2 =~= r2.remove(r2.len() - 1));
        assert(t1.to_multiset() == r1.to_multiset().remove(v));
        assert(t2.to_multiset() == r2.to_multiset().remove(v));
        let mm = m.remove(v);
        assert(t1.to_multiset().subset_of(mm)) by {
            assert(forall|x: usize| #[trigger] t1.to_multiset().count(x) <= mm.count(x));
        }
        assert(t2.to_multiset().subset_of(mm)) by {
            assert(forall|x: usize| #[trigger] t2.to_multiset().count(x) <= mm.count(x));
        }
        assert(mm.sub(t1.to_multiset()) =~= m.sub(r1.to_multiset()));
        assert(mm.sub(t2.to_multiset()) =~= m.sub(r2.to_multiset()));
        assert(below_all(mm.sub(t1.to_multiset()), t1.to_multiset())) by {
            assert(forall|y: usize| t1.to_multiset().count(y) > 0
                ==> r1.to_multiset().count(y) > 0);
        }
        assert(below_all(mm.sub(t2.to_multiset()), t2.to_multiset())) by {
            assert(forall|y: usize| t2.to_multiset().count(y) > 0
                ==> r2.to_multiset().count(y) > 0);
        }
        lemma_top_of_multiset_unique(mm, t1, t2);
        assert(r1 =~= t1.push(v));
        assert(r2 =~= t2.push(v));
    }
}

/// Two inputs holding the same values (as a multiset, so in any order)
/// have the same top-`k` sequence — in particular the same sum.
pub proof fn lemma_top_k_unique(s1: Seq<usize>, s2: Seq<usize>, k: int, r1: Seq<usize>, r2: Seq<usize>)
    requires
        k >= 0,
        s1.to_multiset() == s2.to_multiset(),
        is_top_k(s1, k, r1),
        is_top_k(s2, k, r2),
    ensures
        r1 == r2,
{
    assert(s1.len() == s2.len()) by {
        assert(s1.to_multiset().len() == s1.len());
        assert(s2.to_multiset().len() == s2.len());
    }
    lemma_top_of_multiset_unique(s1.to_multiset(), r1, r2);
}

/// Some top-`k` sequence exists for every input, so `top_k_of` below is
/// well defined.
pub proof fn lemma_top_k_exists(s: Seq<usize>, k: int)
    requires
        k >= 0,
    ensures
        exists|r: Seq<usize>| is_top_k(s, k, r),
    decreases s.len(),
{
    if s.len() == 0 {
        let r = Seq::<usize>::empty();
        assert(r.to_multiset() =~= Multiset::<usize>::empty());
        assert(s.to_multiset() =~= Multiset::<usize>::empty());
        assert(is_top_k(s, k, r));
    } else {
        let init = s.drop_last();
        lemma_top_k_exists(init, k);
        let r = choose|r: Seq<usize>| is_top_k(init, k, r);
        lemma_top_step(init, k, r, s.last());
        assert(init.push(s.last()) =~= s);
    }
}

/// The ascending sequence of the `k` largest values of `s`.
pub open spec fn top_k_of(s: Seq<usize>, k: int) -> Seq<usize> {
    choose|r: Seq<usize>| is_top_k(s, k, r)
}

/// `top_k_of` satisfies its own characterisation.
pub proof fn lemma_top_k_of(s: Seq<usize>, k: int)
    requires
        k >= 0,
    ensures
        is_top_k(s, k, top_k_of(s, k)),
{
    lemma_top_k_exists(s, k);
}

/// Keeping an empty buffer: the top of an empty input is empty.
pub proof fn lemma_top_k_empty(k: int, r: Seq<usize>)
    requires
        is_top_k(Seq::<usize>::empty(), k, r),
    ensures
        r == Seq::<usize>::empty(),
{
    assert(r =~= Seq::<usize>::empty());
}

/// When the input has at most `k` values, the top-`k` holds all of them,
/// sorted ascending.
pub proof fn lemma_top_k_all(s: Seq<usize>, k: int, r: Seq<usize>)
    requires
        k >= 0,
        s.len() <= k,
        is_top_k(s, k, r),
    ensures
        sorted(r),
        r.to_multiset() == s.to_multiset(),
{
    assert(r.len() == s.len());
    assert(r.to_multiset().len() == r.len());
    assert(s.to_multiset().len() == s.len());
    lemma_subset_same_len(r.to_multiset(), s.to_multiset());
}

/// Insert `v` into the ascending buffer at its sorted position.
fn place_sorted(maxes: &mut Vec<usize>, v: usize)
    requires
        sorted(old(maxes)@),
    ensures
        final(maxes)@ == insert_sorted(old(maxes)@, v),
{
    proof {
        lemma_insertion_point(maxes@, v);
    }
    let mut i: usize = 0;
    while i < maxes.len() && maxes[i] <= v
        invariant
            0 <= i <= maxes@.len(),
            sorted(maxes@),
            forall|j: int| 0 <= j < i ==> maxes@[j] <= v,
            maxes@ == old(maxes)@,
        decreases maxes@.len() - i,
    {
        i = i + 1;
    }
    proof {
        assert(i as int == insertion_point(maxes@, v)) by {
            let p = insertion_point(maxes@, v);
            if (i as int) < p {
                assert(maxes@[i as int] <= v);
            }
            if p < (i as int) {
                assert(maxes@[p] <= v);
            }
        }
    }
    maxes.insert(i, v);
}

/// Collect the `count` largest values of `values`, in ascending order.
///
/// A fixed-capacity ascending buffer is kept: while it has room an incoming
/// value is inserted in order, and once it is full an incoming value
/// replaces the least kept value exactly when it is strictly greater.
pub fn multi_max(values: Vec<usize>, count: usize) -> (r: Vec<usize>)
    ensures
        is_top_k(values@, count as int, r@),
{
    let mut maxes: Vec<usize> = Vec::new();
    let n = values.len();
    let mut idx: usize = 0;
    proof {
        assert(values@.subrange(0, 0) =~= Seq::<usize>::empty());
        assert(Seq::<usize>::empty().to_multiset() =~= Multiset::<usize>::empty());
        assert(maxes@.to_multiset() =~= Multiset::<usize>::empty());
        assert(is_top_k(values@.subrange(0, 0), count as int, maxes@));
    }
    while idx < n
        invariant
            idx <= n,
            n == values@.len(),
            is_top_k(values@.subrange(0, idx as int), count as int, maxes@),
        decreases n - idx,
    {
        let v = values[idx];
        let ghost prefix = values@.subrange(0, idx as int);
        let ghost before = maxes@;
        if maxes.len() < count {
            place_sorted(&mut maxes, v);
        } else if count > 0 && maxes[0] < v {
            maxes.remove(0);
            proof {
                assert(maxes@ =~= before.subrange(1, before.len() as int));
                assert(sorted(maxes@));
            }
            place_sorted(&mut maxes, v);
        }
        proof {
            lemma_top_step(prefix, count as int, before, v);
            assert(values@.subrange(0, idx as int + 1) =~= prefix.push(values@[idx as int]));
            assert(maxes@ == top_step(before, v, count as int));
        }
        idx = idx + 1;
    }
    proof {
        assert(values@.subrange(0, n as int) =~= values@);
    }
    maxes
}

} // verus!
