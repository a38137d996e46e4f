//! Laws of the tour cost and of the 2-opt neighborhood: the closed-tour cost
//! is invariant under rotation and reversal of the tour, and the neighborhood
//! is exactly the C(n-1, 2) anchored segment reversals.

use vstd::prelude::*;
use crate::definitions::clone_preserves_view;
use crate::tsp::{
    edge_dist, edge_seq, lemma_edge_dist_symmetric, nb_row, nb_upto, reverse_seg, sum_from,
    tour_cost, two_opt_neighbors, CityData, Solution,
};

verus! {

/// The tour rotated left by one position.
pub open spec fn rotate1(s: Seq<CityData>) -> Seq<CityData> {
    if s.len() == 0 {
        s
    } else {
        s.drop_first().push(s.first())
    }
}

/// The tour rotated left by `k` positions.
pub open spec fn rotate(s: Seq<CityData>, k: nat) -> Seq<CityData>
    decreases k,
{
    if k == 0 {
        s
    } else {
        rotate1(rotate(s, (k - 1) as nat))
    }
}

/// Summing a suffix equals summing the subrange taken as its own sequence.
proof fn lemma_sum_subrange(q: Seq<int>, k: int)
    requires
        0 <= k <= q.len(),
    ensures
        sum_from(q, k as nat) == sum_from(q.subrange(k, q.len() as int), 0),
    decreases q.len() - k,
{
    if k == q.len() {
        assert(q.subrange(k, q.len() as int) =~= Seq::<int>::empty());
    } else {
        let sub = q.subrange(k, q.len() as int);
        lemma_sum_subrange(q, k + 1);
        lemma_sum_subrange(sub, 1);
        assert(sub.subrange(1, sub.len() as int) =~= q.subrange(k + 1, q.len() as int));
    }
}

/// Sums split over concatenation.
proof fn lemma_sum_append(a: Seq<int>, b: Seq<int>)
    ensures
        sum_from(a + b, 0) == sum_from(a, 0) + sum_from(b, 0),
    decreases a.len(),
{
    if a.len() == 0 {
        assert(a + b =~= b);
    } else {
        let t = a + b;
        lemma_sum_subrange(t, 1);
        lemma_sum_subrange(a, 1);
        assert(t.subrange(1, t.len() as int) =~= a.subrange(1, a.len() as int) + b);
        lemma_sum_append(a.subrange(1, a.len() as int), b);
        assert(t[0] == a[0]);
    }
}

/// Sums are invariant under reversal.
proof fn lemma_sum_reverse(q: Seq<int>)
    ensures
        sum_from(q.reverse(), 0) == sum_from(q, 0),
    decreases q.len(),
{
    if q.len() == 0 {
        assert(q.reverse() =~= q);
    } else {
        let n = q.len() as int;
        let tail = q.subrange(1, n);
        assert(q.reverse() =~= tail.reverse() + q.subrange(0, 1));
        lemma_sum_append(tail.reverse(), q.subrange(0, 1));
        lemma_sum_reverse(tail);
        lemma_sum_subrange(q, 1);
        assert(sum_from(q.subrange(0, 1), 0) == q[0] + sum_from(q.subrange(0, 1), 1));
    }
}

/// Rotating a tour by one position rotates its cyclic edge sequence.
proof fn lemma_edge_seq_rotate1(s: Seq<CityData>)
    requires
        s.len() >= 2,
    ensures
        edge_seq(rotate1(s)) =~= edge_seq(s).subrange(1, s.len() as int) + edge_seq(s).subrange(
            0,
            1,
        ),
{
    let n = s.len() as int;
    let r = rotate1(s);
    let q = edge_seq(s);
    assert(r.len() == n);
    assert forall|t: int| 0 <= t < n implies edge_seq(r)[t] == (q.subrange(1, n) + q.subrange(
        0,
        1,
    ))[t] by {
        vstd::arithmetic::div_mod::lemma_mod_self_0(n);
        if t < n - 1 {
            vstd::arithmetic::div_mod::lemma_small_mod((t + 1) as nat, n as nat);
            assert(edge_seq(r)[t] == edge_dist(r[t], r[t + 1]));
            if t + 1 < n - 1 {
                vstd::arithmetic::div_mod::lemma_small_mod((t + 2) as nat, n as nat);
                assert(q[t + 1] == edge_dist(s[t + 1], s[t + 2]));
                assert(edge_seq(r)[t] == edge_dist(s[t + 1], s[t + 2]));
            } else {
                assert(t + 1 == n - 1);
                assert(q[t + 1] == edge_dist(s[n - 1], s[0]));
                assert(edge_seq(r)[t] == edge_dist(s[n - 1], s[0]));
            }
        } else {
            assert(t == n - 1);
            assert(edge_seq(r)[t] == edge_dist(r[n - 1], r[0]));
            vstd::arithmetic::div_mod::lemma_small_mod(1nat, n as nat);
            assert(q[0] == edge_dist(s[0], s[1]));
            assert(edge_seq(r)[t] == edge_dist(s[0], s[1]));
        }
    }
}

/// Law: the closed-tour cost is invariant under rotating the tour by one.
pub proof fn lemma_tour_cost_rotate1(s: Seq<CityData>)
    ensures
        tour_cost(rotate1(s)) == tour_cost(s),
{
    if s.len() == 0 {
    } else if s.len() == 1 {
        assert(rotate1(s) =~= s);
    } else {
        let n = s.len() as int;
        let q = edge_seq(s);
        lemma_edge_seq_rotate1(s);
        assert(edge_seq(rotate1(s)) == q.subrange(1, n) + q.subrange(0, 1));
        lemma_sum_append(q.subrange(1, n), q.subrange(0, 1));
        lemma_sum_subrange(q, 1);
        assert(sum_from(q.subrange(0, 1), 0) == q[0] + sum_from(q.subrange(0, 1), 1));
    }
}

/// Law: the closed-tour cost is invariant under any rotation of the tour,
/// because the closing edge makes the edge set cyclic.
pub proof fn lemma_tour_cost_rotation_invariant(s: Seq<CityData>, k: nat)
    ensures
        tour_cost(rotate(s, k)) == tour_cost(s),
    decreases k,
{
    if k > 0 {
        lemma_tour_cost_rotation_invariant(s, (k - 1) as nat);
        lemma_tour_cost_rotate1(rotate(s, (k - 1) as nat));
    }
}

/// Law: the closed-tour cost is invariant under reversing the tour, because
/// each edge is direction-symmetric.
pub proof fn lemma_tour_cost_reversal_invariant(s: Seq<CityData>)
    ensures
        tour_cost(s.reverse()) == tour_cost(s),
{
    let n = s.len() as int;
    if n <= 1 {
        assert(s.reverse() =~= s);
    } else {
        let r = s.reverse();
        let q = edge_seq(s);
        assert forall|t: int| 0 <= t < n implies edge_seq(r)[t] == (q.subrange(0, n - 1).reverse()
            + q.subrange(n - 1, n))[t] by {
            vstd::arithmetic::div_mod::lemma_mod_self_0(n);
            if t < n - 1 {
                vstd::arithmetic::div_mod::lemma_small_mod((t + 1) as nat, n as nat);
                vstd::arithmetic::div_mod::lemma_small_mod((n - 1 - t) as nat, n as nat);
                assert(edge_seq(r)[t] == edge_dist(s[n - 1 - t], s[n - 2 - t]));
                assert(q[n - 2 - t] == edge_dist(s[n - 2 - t], s[n - 1 - t]));
                lemma_edge_dist_symmetric(s[n - 1 - t], s[n - 2 - t]);
                assert((q.subrange(0, n - 1).reverse() + q.subrange(n - 1, n))[t] == q[n - 2 - t]);
            } else {
                assert(t == n - 1);
                assert(edge_seq(r)[t] == edge_dist(r[n - 1], r[0]));
                assert(edge_seq(r)[t] == edge_dist(s[0], s[n - 1]));
                assert(q[n - 1] == edge_dist(s[n - 1], s[0]));
                lemma_edge_dist_symmetric(s[0], s[n - 1]);
            }
        }
        assert(edge_seq(r) =~= q.subrange(0, n - 1).reverse() + q.subrange(n - 1, n));
        lemma_sum_append(q.subrange(0, n - 1).reverse(), q.subrange(n - 1, n));
        lemma_sum_reverse(q.subrange(0, n - 1));
        assert(q =~= q.subrange(0, n - 1) + q.subrange(n - 1, n));
        lemma_sum_append(q.subrange(0, n - 1), q.subrange(n - 1, n));
    }
}

/// Twice the number of candidates with left endpoint below `i`.
proof fn lemma_nb_upto_len(s: Seq<CityData>, i: int)
    requires
        1 <= i <= s.len() - 1,
    ensures
        2 * nb_upto(s, i).len() == (i - 1) * (2 * s.len() - 2 - i),
    decreases i,
{
    let n = s.len() as int;
    if i == 1 {
        assert(nb_upto(s, 1).len() == 0);
    } else {
        lemma_nb_upto_len(s, i - 1);
        assert(nb_row(s, i - 1).len() == n - i);
        assert((i - 2) * (2 * n - 1 - i) + 2 * (n - i) == (i - 1) * (2 * n - 2 - i))
            by (nonlinear_arith);
    }
}

/// Law: a tour of length n has exactly C(n-1, 2) 2-opt candidates, and a
/// degenerate tour of length below 2 has none.
pub proof fn lemma_two_opt_neighbor_count(s: Seq<CityData>)
    ensures
        s.len() >= 2 ==> two_opt_neighbors(s).len() == (s.len() - 1) * (s.len() - 2) / 2,
        s.len() < 2 ==> two_opt_neighbors(s).len() == 0,
{
    let n = s.len() as int;
    if n >= 2 {
        lemma_nb_upto_len(s, n - 1);
        assert(2 * nb_upto(s, n - 1).len() == (n - 2) * (n - 1));
        assert((n - 1) * (n - 2) == (n - 2) * (n - 1)) by (nonlinear_arith);
    }
}

/// Reversing the segment [i, j] of a tour keeps the length, keeps the
/// location multiset, and keeps position 0 when the segment starts after it.
pub proof fn lemma_reverse_seg_permutes(s: Seq<CityData>, i: int, j: int)
    requires
        0 <= i <= j < s.len(),
    ensures
        reverse_seg(s, i, j).len() == s.len(),
        reverse_seg(s, i, j).to_multiset() == s.to_multiset(),
        i >= 1 ==> reverse_seg(s, i, j)[0] == s[0],
{
    let n = s.len() as int;
    let rs = reverse_seg(s, i, j);
    let a = s.subrange(0, i);
    let mid = s.subrange(i, j + 1);
    let b = s.subrange(j + 1, n);
    assert(s =~= a + mid + b);
    assert(rs =~= a + mid.reverse() + b);
    vstd::seq_lib::lemma_multiset_commutative(a + mid, b);
    vstd::seq_lib::lemma_multiset_commutative(a, mid);
    vstd::seq_lib::lemma_multiset_commutative(a + mid.reverse(), b);
    vstd::seq_lib::lemma_multiset_commutative(a, mid.reverse());
    mid.lemma_reverse_to_multiset();
    assert(rs.to_multiset() =~= s.to_multiset());
}

/// Every candidate with left endpoint below `i` is an anchored reversal.
proof fn lemma_nb_upto_shape(s: Seq<CityData>, i: int, k: int)
    requires
        1 <= i <= s.len() - 1,
        0 <= k < nb_upto(s, i).len(),
    ensures
        exists|a: int, b: int|
            1 <= a < b <= s.len() - 1 && nb_upto(s, i)[k] == #[trigger] reverse_seg(s, a, b),
    decreases i,
{
    let n = s.len() as int;
    let prefix = nb_upto(s, i - 1);
    let row = nb_row(s, i - 1);
    if k < prefix.len() {
        lemma_nb_upto_shape(s, i - 1, k);
        let (a, b) = choose|a: int, b: int|
            1 <= a < b <= n - 1 && prefix[k] == #[trigger] reverse_seg(s, a, b);
        assert(nb_upto(s, i)[k] == reverse_seg(s, a, b));
    } else {
        let t = k - prefix.len();
        assert(row[t] == reverse_seg(s, i - 1, i + t));
        assert(nb_upto(s, i)[k] == reverse_seg(s, i - 1, i + t));
        assert(1 <= i - 1 < i + t <= n - 1);
    }
}

/// Law: every 2-opt candidate is the tour with exactly one contiguous
/// segment reversed, never touching position 0; so each candidate is a
/// permutation of the same locations with the anchor still first.
pub proof fn lemma_two_opt_neighbor_shape(s: Seq<CityData>, k: int)
    requires
        0 <= k < two_opt_neighbors(s).len(),
    ensures
        exists|a: int, b: int|
            1 <= a < b <= s.len() - 1 && two_opt_neighbors(s)[k] == #[trigger] reverse_seg(s, a, b),
        two_opt_neighbors(s)[k].len() == s.len(),
        two_opt_neighbors(s)[k].to_multiset() == s.to_multiset(),
        two_opt_neighbors(s)[k][0] == s[0],
{
    let n = s.len() as int;
    assert(n - 1 >= 2) by {
        if n - 1 <= 1 {
            assert(nb_upto(s, n - 1).len() == 0);
        }
    }
    lemma_nb_upto_shape(s, n - 1, k);
    let (a, b) = choose|a: int, b: int|
        1 <= a < b <= n - 1 && two_opt_neighbors(s)[k] == #[trigger] reverse_seg(s, a, b);
    lemma_reverse_seg_permutes(s, a, b);
}

/// Cloning a tour preserves its view, so the engines' clone hypothesis holds
/// for the tour solution type.
pub proof fn lemma_solution_clone_preserves_view()
    ensures
        clone_preserves_view::<Solution>(),
{
    assert forall|a: &Vec<CityData>, b: Vec<CityData>| #[trigger] call_ensures(
        <Vec<CityData> as Clone>::clone,
        (a,),
        b,
    ) implies b@ == a@ by {
        assert(b.len() == a.len());
        assert forall|i: int| 0 <= i < a.len() implies a@[i] == b@[i] by {
            assert(vstd::pervasive::cloned::<CityData>(a[i], b[i]));
        }
        assert(a@ =~= b@);
    }
}

} // verus!


