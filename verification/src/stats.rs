//! Order statistics over fixed-point lengths: a verified ascending sort and
//! the median of a sorted sequence.

use vstd::prelude::*;
use vstd::multiset::Multiset;
use vstd::relations::sorted_by;
use crate::LEN_LIMIT;

verus! {

/// The ascending order on lengths, as a function value, so that every
/// contract and proof speaks of one and the same ordering term.
pub open spec fn le_order() -> spec_fn(i64, i64) -> bool {
    |a: i64, b: i64| a <= b
}

/// The ascending order is total.
pub proof fn lemma_le_order_total()
    ensures
        vstd::relations::total_ordering(le_order()),
{
    assert forall|a: i64, b: i64| #[trigger] le_order()(a, b) || #[trigger] le_order()(b, a) by {
        if a <= b {
            assert(le_order()(a, b));
        } else {
            assert(le_order()(b, a));
        }
    }
}

/// Elements are preserved by any permutation: a range bound carries over.
pub proof fn lemma_multiset_range(a: Seq<i64>, b: Seq<i64>, lo: i64, hi: i64)
    requires
        a.to_multiset() == b.to_multiset(),
        forall|i: int| 0 <= i < a.len() ==> lo <= #[trigger] a[i] <= hi,
    ensures
        forall|i: int| 0 <= i < b.len() ==> lo <= #[trigger] b[i] <= hi,
{
    broadcast use vstd::seq_lib::group_to_multiset_ensures;

    assert forall|i: int| 0 <= i < b.len() implies lo <= #[trigger] b[i] <= hi by {
        assert(b.contains(b[i]));
        assert(b.to_multiset().count(b[i]) > 0);
        assert(a.to_multiset().count(b[i]) > 0);
        assert(a.contains(b[i]));
        let j = choose|j: int| 0 <= j < a.len() && a[j] == b[i];
        assert(lo <= a[j] <= hi);
    }
}

/// An ascending copy of `v`: sorted, with exactly the elements of `v`.
/// Selection by repeated extraction of the first minimum.
pub fn sorted_copy(v: &Vec<i64>) -> (r: Vec<i64>)
    ensures
        sorted_by(r@, le_order()),
        r@.to_multiset() == v@.to_multiset(),
        r@.len() == v@.len(),
{
    broadcast use vstd::seq_lib::group_to_multiset_ensures;

    let mut rest: Vec<i64> = Vec::new();
    let mut i: usize = 0;
    while i < v.len()
        invariant
            0 <= i <= v@.len(),
            rest@ == v@.subrange(0, i as int),
        decreases v@.len() - i,
    {
        rest.push(v[i]);
        assert(rest@ =~= v@.subrange(0, i as int + 1));
        i += 1;
    }
    assert(rest@ =~= v@);

    let mut out: Vec<i64> = Vec::new();
    while rest.len() > 0
        invariant
            out@.to_multiset().add(rest@.to_multiset()) == v@.to_multiset(),
            sorted_by(out@, le_order()),
            forall|a: int, b: int|
                0 <= a < out@.len() && 0 <= b < rest@.len() ==> out@[a] <= rest@[b],
            out@.len() + rest@.len() == v@.len(),
        decreases rest@.len(),
    {
        let mut m: usize = 0;
        let mut t: usize = 1;
        while t < rest.len()
            invariant
                0 < rest@.len(),
                m < t <= rest@.len(),
                forall|j: int| 0 <= j < t ==> rest@[m as int] <= #[trigger] rest@[j],
            decreases rest@.len() - t,
        {
            if rest[t] < rest[m] {
                m = t;
            }
            t += 1;
        }
        let ghost pre_rest = rest@;
        let ghost pre_out = out@;
        let x = rest.remove(m);
        out.push(x);
        proof {
            broadcast use vstd::seq_lib::group_to_multiset_ensures;

            assert(pre_rest.remove(m as int).to_multiset() =~= pre_rest.to_multiset().remove(x));
            assert(pre_out.push(x).to_multiset() =~= pre_out.to_multiset().insert(x));
            assert(pre_rest.to_multiset().count(x) > 0) by {
                assert(pre_rest.contains(x));
            }
            assert(out@.to_multiset().add(rest@.to_multiset()) =~= v@.to_multiset());
            assert forall|a: int, b: int|
                0 <= a < out@.len() && 0 <= b < rest@.len() implies out@[a] <= rest@[b] by {
                if b < m {
                    assert(rest@[b] == pre_rest[b]);
                } else {
                    assert(rest@[b] == pre_rest[b + 1]);
                }
                if a < pre_out.len() {
                    assert(out@[a] == pre_out[a]);
                } else {
                    assert(out@[a] == x);
                }
            }
        }
    }
    assert(rest@.to_multiset() =~= Multiset::<i64>::empty());
    assert(out@.to_multiset() =~= v@.to_multiset());
    out
}

/// The median of a sequence read as already sorted: the middle element for an
/// odd count, the floored mean of the two middle elements for an even count.
pub open spec fn median_spec(s: Seq<i64>) -> int {
    let m = s.len() as int / 2;
    if s.len() % 2 == 0 {
        (s[m - 1] + s[m]) / 2
    } else {
        s[m] as int
    }
}

/// The median of a sorted sequence of bounded non-negative lengths.
pub fn median_sorted(s: &Vec<i64>) -> (r: i64)
    requires
        s@.len() >= 1,
        forall|i: int| 0 <= i < s@.len() ==> 0 <= #[trigger] s@[i] <= LEN_LIMIT,
    ensures
        r as int == median_spec(s@),
        0 <= r <= LEN_LIMIT,
{
    let n = s.len();
    let m = n / 2;
    if n % 2 == 0 {
        (s[m - 1] + s[m]) / 2
    } else {
        s[m]
    }
}

} // verus!
