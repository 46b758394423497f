//! Measured values by rank. Values are given by numbers in the same order, which is all that is
//! needed of them here.

use vstd::prelude::*;

verus! {

pub open spec fn at_most() -> spec_fn(u32, u32) -> bool {
    |a: u32, b: u32| a <= b
}

/// The values in ascending order.
pub open spec fn ascending(values: Seq<u32>) -> Seq<u32> {
    values.sort_by(at_most())
}

proof fn lemma_order()
    ensures
        vstd::relations::total_ordering(at_most()),
{
}

/// The values in ascending order, by inserting one after the other.
pub fn sorted(values: &Vec<u32>) -> (r: Vec<u32>)
    ensures
        r@ == ascending(values@),
        r@.len() == values@.len(),
{
    let mut v: Vec<u32> = Vec::new();
    let mut i: usize = 0;
    assert(v@ =~= values@.take(0));
    while i < values.len()
        invariant
            i <= values@.len(),
            v@.len() == i,
            v@.to_multiset() == values@.take(i as int).to_multiset(),
            vstd::relations::sorted_by(v@, at_most()),
        decreases values@.len() - i,
    {
        let x: u32 = values[i];
        let mut j: usize = 0;
        while j < v.len() && v[j] <= x
            invariant
                j <= v@.len(),
                forall|k: int| 0 <= k < j ==> v@[k] <= x,
            decreases v@.len() - j,
        {
            j += 1;
        }
        let ghost v0 = v@;
        v.insert(j, x);
        proof {
            vstd::seq_lib::to_multiset_insert(v0, j as int, x);
            vstd::seq_lib::to_multiset_build(values@.take(i as int), x);
            assert(values@.take(i + 1) =~= values@.take(i as int).push(x));
            assert forall|a: int, b: int| 0 <= a < b < v@.len() implies at_most()(v@[a], v@[b]) by {
                let c = if a < j {
                    a
                } else {
                    a - 1
                };
                let d = if b < j {
                    b
                } else {
                    b - 1
                };
                if a != j && b != j {
                    assert(c < d);
                    assert(at_most()(v0[c], v0[d]));
                }
                if a == j && j < v0.len() && d > j {
                    assert(at_most()(v0[j as int], v0[d]));
                }
            }
        }
        i += 1;
    }
    proof {
        assert(values@.take(i as int) =~= values@);
        lemma_order();
        values@.lemma_sort_by_ensures(at_most());
        vstd::seq_lib::lemma_sorted_unique(v@, ascending(values@), at_most());
    }
    v
}

/// The value in the middle, the upper of two.
pub fn median(values: &Vec<u32>) -> (r: u32)
    requires
        values@.len() > 0,
    ensures
        r == ascending(values@)[(values@.len() / 2) as int],
{
    let v: Vec<u32> = sorted(values);
    v[v.len() / 2]
}

/// The index is that of the first among the largest values.
pub open spec fn is_first_largest(values: Seq<u32>, i: int) -> bool {
    &&& 0 <= i < values.len()
    &&& forall|j: int| 0 <= j < values.len() ==> #[trigger] values[j] <= values[i]
    &&& forall|j: int| 0 <= j < i ==> #[trigger] values[j] < values[i]
}

/// The index of the first among the largest values.
pub fn first_largest(values: &[u32]) -> (r: usize)
    requires
        values@.len() > 0,
    ensures
        is_first_largest(values@, r as int),
{
    let mut best: usize = 0;
    let mut i: usize = 1;
    while i < values.len()
        invariant
            best < i <= values@.len(),
            forall|j: int| 0 <= j < i ==> #[trigger] values@[j] <= values@[best as int],
            forall|j: int| 0 <= j < best ==> #[trigger] values@[j] < values@[best as int],
        decreases values@.len() - i,
    {
        if values[i] > values[best] {
            best = i;
        }
        i += 1;
    }
    best
}

/// How many of the values are at most `q`.
pub open spec fn low_count(values: Seq<u32>, q: u32) -> nat
    decreases values.len(),
{
    if values.len() == 0 {
        0
    } else {
        low_count(values.drop_last(), q) + (if values.last() <= q {
            1nat
        } else {
            0nat
        })
    }
}

proof fn lemma_count_is_of_multiset(values: Seq<u32>, q: u32)
    ensures
        low_count(values, q) == values.to_multiset().filter(|l: u32| l <= q).len(),
    decreases values.len(),
{
    broadcast use vstd::multiset::group_multiset_axioms;

    let f = |l: u32| l <= q;
    if values.len() == 0 {
        vstd::seq_lib::to_multiset_len(values);
        assert(values.to_multiset().filter(f) =~= vstd::multiset::Multiset::empty());
    } else {
        let s = values.drop_last();
        let a = values.last();
        lemma_count_is_of_multiset(s, q);
        assert(values =~= s.push(a));
        vstd::seq_lib::to_multiset_build(s, a);
        let m = s.to_multiset();
        if a <= q {
            assert(m.insert(a).filter(f) =~= m.filter(f).insert(a));
        } else {
            assert(m.insert(a).filter(f) =~= m.filter(f));
        }
    }
}

proof fn lemma_count_bound(values: Seq<u32>, q: u32)
    ensures
        low_count(values, q) <= values.len(),
    decreases values.len(),
{
    if values.len() > 0 {
        lemma_count_bound(values.drop_last(), q);
    }
}

proof fn lemma_count_of_sorted(v: Seq<u32>, q: u32, k: int, n: int)
    requires
        vstd::relations::sorted_by(v, at_most()),
        0 <= k < v.len(),
        v[k] > q,
        0 <= n <= v.len(),
    ensures
        low_count(v.take(n), q) <= k,
    decreases n,
{
    if n > 0 {
        lemma_count_of_sorted(v, q, k, n - 1);
        assert(v.take(n).drop_last() =~= v.take(n - 1));
        if n - 1 > k {
            assert(at_most()(v[k], v[n - 1]));
        }
        if n - 1 < k {
            lemma_count_bound(v.take(n), q);
        }
    }
}

/// A value by rank is one of the values, and it is at most `q` as soon as more values are than
/// its rank says, however large the others.
pub proof fn law_rank(values: Seq<u32>, k: int, q: u32)
    requires
        0 <= k < values.len(),
    ensures
        ascending(values).len() == values.len(),
        values.contains(ascending(values)[k]),
        low_count(values, q) > k ==> ascending(values)[k] <= q,
{
    lemma_order();
    values.lemma_sort_by_ensures(at_most());
    let v = ascending(values);
    vstd::seq_lib::to_multiset_len(v);
    vstd::seq_lib::to_multiset_len(values);
    assert(v.contains(v[k]));
    lemma_count_is_of_multiset(values, q);
    lemma_count_is_of_multiset(v, q);
    if v[k] > q {
        lemma_count_of_sorted(v, q, k, v.len() as int);
        assert(v.take(v.len() as int) =~= v);
    }
}

proof fn lemma_count_up_to(v: Seq<u32>, q: u32, k: int, n: int)
    requires
        vstd::relations::sorted_by(v, at_most()),
        0 <= k < v.len(),
        v[k] <= q,
        0 <= n <= k + 1,
    ensures
        low_count(v.take(n), q) == n,
    decreases n,
{
    if n > 0 {
        lemma_count_up_to(v, q, k, n - 1);
        assert(v.take(n).drop_last() =~= v.take(n - 1));
        if n - 1 < k {
            assert(at_most()(v[n - 1], v[k]));
        }
    }
}

proof fn lemma_count_grows(v: Seq<u32>, q: u32, m: int, n: int)
    requires
        0 <= m <= n <= v.len(),
    ensures
        low_count(v.take(m), q) <= low_count(v.take(n), q),
    decreases n,
{
    if m < n {
        lemma_count_grows(v, q, m, n - 1);
        assert(v.take(n).drop_last() =~= v.take(n - 1));
    }
}

/// The value of rank `k` is at most `q` exactly if more than `k` of the values are: as many lie below
/// it as its rank says.
pub proof fn law_rank_is_exact(values: Seq<u32>, k: int, q: u32)
    requires
        0 <= k < values.len(),
    ensures
        ascending(values)[k] <= q <==> low_count(values, q) > k,
{
    law_rank(values, k, q);
    lemma_order();
    values.lemma_sort_by_ensures(at_most());
    let v = ascending(values);
    lemma_count_is_of_multiset(values, q);
    lemma_count_is_of_multiset(v, q);
    if v[k] <= q {
        lemma_count_up_to(v, q, k, k + 1);
        lemma_count_grows(v, q, k + 1, v.len() as int);
        assert(v.take(v.len() as int) =~= v);
    }
}

/// A count goes up by one with each value that is at most `q`.
pub proof fn law_values_are_counted(values: Seq<u32>, next: u32, q: u32)
    ensures
        low_count(Seq::empty(), q) == 0,
        low_count(values.push(next), q) == low_count(values, q) + (if next <= q {
            1nat
        } else {
            0nat
        }),
{
    assert(values.push(next).drop_last() =~= values);
}

/// No value is larger than the first of the largest, and none before it is as large.
pub proof fn law_first_of_the_largest(values: Seq<u32>, i: int, j: int)
    requires
        is_first_largest(values, i),
        0 <= j < values.len(),
    ensures
        0 <= i < values.len(),
        values[j] <= values[i],
        values[j] == values[i] ==> i <= j,
{
}

} // verus!
