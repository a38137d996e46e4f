//! The tour-optimization instantiation: locations on an integer grid, a
//! closed-tour Euclidean objective, random anchored tours, and the full
//! 2-opt segment-reversal neighborhood.

use vstd::prelude::*;
use crate::definitions::{Neighborhood, Objective};
use crate::isqrt::{isqrt, lemma_sqrt_floor_bound, sqrt_floor};
use rand::Rng;

verus! {

/// One location: a unique name, planar coordinates projected onto an integer
/// grid, and geographic coordinates kept for presentation only.
pub struct CityData {
    pub city_name: String,
    pub lat: i32,
    pub lon: i32,
    pub x_km: i32,
    pub y_km: i32,
}

impl Clone for CityData {
    /// A clone equals the original, field for field.
    fn clone(&self) -> (result: Self)
        ensures
            result == *self,
    {
        CityData {
            city_name: self.city_name.clone(),
            lat: self.lat,
            lon: self.lon,
            x_km: self.x_km,
            y_km: self.y_km,
        }
    }
}

impl PartialEq for CityData {
    fn eq(&self, other: &Self) -> (result: bool) {
        self.city_name == other.city_name && self.lat == other.lat && self.lon == other.lon
            && self.x_km == other.x_km && self.y_km == other.y_km
    }
}

impl vstd::std_specs::cmp::PartialEqSpecImpl for CityData {
    open spec fn obeys_eq_spec() -> bool {
        true
    }

    open spec fn eq_spec(&self, other: &Self) -> bool {
        &&& self.city_name@ == other.city_name@
        &&& self.lat == other.lat
        &&& self.lon == other.lon
        &&& self.x_km == other.x_km
        &&& self.y_km == other.y_km
    }
}

/// A solution: an ordered tour of locations, treated as a closed cycle.
pub type Solution = Vec<CityData>;

/// A read-only dataset: the locations a tour must visit, with unique names.
pub struct Data {
    pub cities: Vec<CityData>,
}

impl Data {
    /// Well-formed: location names are pairwise distinct.
    pub open spec fn wf(self) -> bool {
        forall|i: int, j: int|
            0 <= i < j < self.cities@.len() ==> (#[trigger] self.cities@[i]).city_name@ != (
            #[trigger] self.cities@[j]).city_name@
    }

    /// Some location in the dataset carries the given name.
    pub open spec fn contains_name(self, name: Seq<char>) -> bool {
        exists|i: int| 0 <= i < self.cities@.len() && (#[trigger] self.cities@[i]).city_name@ == name
    }
}

/// The squared planar separation of two locations.
pub open spec fn sq_dist(a: CityData, b: CityData) -> int {
    (a.x_km - b.x_km) * (a.x_km - b.x_km) + (a.y_km - b.y_km) * (a.y_km - b.y_km)
}

/// The Euclidean length of the edge between two locations, rounded down.
pub open spec fn edge_dist(a: CityData, b: CityData) -> int {
    sqrt_floor(sq_dist(a, b) as nat) as int
}

/// The sum of the entries of `s` from position `k` on.
pub open spec fn sum_from(s: Seq<int>, k: nat) -> int
    decreases s.len() - k,
{
    if k >= s.len() {
        0
    } else {
        s[k as int] + sum_from(s, k + 1)
    }
}

/// The cyclic edge lengths of a tour: one edge per position, the last one
/// closing the cycle back to position 0.
pub open spec fn edge_seq(tour: Seq<CityData>) -> Seq<int> {
    Seq::new(tour.len(), |i: int| edge_dist(tour[i], tour[(i + 1) % (tour.len() as int)]))
}

/// The closed-tour length: every cyclic edge summed. Tours of length 0 or 1
/// cost 0.
pub open spec fn tour_cost(tour: Seq<CityData>) -> int {
    sum_from(edge_seq(tour), 0)
}

/// Edge lengths do not depend on the direction of travel.
pub proof fn lemma_edge_dist_symmetric(a: CityData, b: CityData)
    ensures
        edge_dist(a, b) == edge_dist(b, a),
{
    assert(sq_dist(a, b) == sq_dist(b, a)) by (nonlinear_arith);
}

/// Squared separations are never negative and never exceed the grid bound.
proof fn lemma_sq_dist_range(a: CityData, b: CityData)
    ensures
        0 <= sq_dist(a, b),
        sq_dist(a, b) < 0x40000000000000000,
{
    let dx = a.x_km - b.x_km;
    let dy = a.y_km - b.y_km;
    assert(0 <= dx * dx && dx * dx < 0x10000000000000000) by (nonlinear_arith)
        requires
            -0xFFFFFFFF <= dx <= 0xFFFFFFFF,
    ;
    assert(0 <= dy * dy && dy * dy < 0x10000000000000000) by (nonlinear_arith)
        requires
            -0xFFFFFFFF <= dy <= 0xFFFFFFFF,
    ;
}

/// Every edge length stays below 2^33.
pub proof fn lemma_edge_dist_range(a: CityData, b: CityData)
    ensures
        0 <= edge_dist(a, b),
        edge_dist(a, b) < 0x200000000,
{
    lemma_sq_dist_range(a, b);
    assert(0x200000000 * 0x200000000 == 0x40000000000000000) by (nonlinear_arith);
    lemma_sqrt_floor_bound(sq_dist(a, b) as nat, 0x200000000 as nat);
}

/// Every suffix of the cyclic edge sum is non-negative and bounded by one
/// maximal edge per position.
proof fn lemma_sum_edges_bound(s: Seq<CityData>, k: nat)
    ensures
        0 <= sum_from(edge_seq(s), k),
        sum_from(edge_seq(s), k) <= (if k <= s.len() {
            (s.len() - k) as int
        } else {
            0int
        }) * 0x200000000,
    decreases s.len() - k,
{
    let q = edge_seq(s);
    if k < s.len() {
        lemma_sum_edges_bound(s, k + 1);
        lemma_edge_dist_range(s[k as int], s[(k as int + 1) % (s.len() as int)]);
        assert(q[k as int] == edge_dist(s[k as int], s[(k as int + 1) % (s.len() as int)]));
        assert((s.len() - k) as int * 0x200000000 == (s.len() - (k + 1)) as int * 0x200000000
            + 0x200000000) by (nonlinear_arith)
            requires
                k < s.len(),
        ;
    }
}

/// The closed-tour cost is non-negative, and for any tour that fits in
/// memory it stays well below the largest representable cost.
pub proof fn lemma_tour_cost_bounds(s: Seq<CityData>)
    ensures
        0 <= tour_cost(s),
        s.len() <= 0x10000000000000000 ==> tour_cost(s) < u128::MAX,
{
    lemma_sum_edges_bound(s, 0);
    if s.len() <= 0x10000000000000000 {
        assert(s.len() as int * 0x200000000 <= 0x10000000000000000 * 0x200000000)
            by (nonlinear_arith)
            requires
                s.len() <= 0x10000000000000000,
        ;
    }
}

/// The Euclidean distance between two locations, rounded down to the grid.
pub fn dist(a: &CityData, b: &CityData) -> (d: u64)
    ensures
        d == edge_dist(*a, *b),
        d < 0x200000000,
{
    proof {
        lemma_sq_dist_range(*a, *b);
        lemma_edge_dist_range(*a, *b);
    }
    let dx = (a.x_km as i64) - (b.x_km as i64);
    let dy = (a.y_km as i64) - (b.y_km as i64);
    proof {
        assert(0 <= (dx as int) * (dx as int) < 0x10000000000000000) by (nonlinear_arith)
            requires
                -0xFFFFFFFF <= dx as int <= 0xFFFFFFFF,
        ;
        assert(0 <= (dy as int) * (dy as int) < 0x10000000000000000) by (nonlinear_arith)
            requires
                -0xFFFFFFFF <= dy as int <= 0xFFFFFFFF,
        ;
    }
    let q = (dx as i128) * (dx as i128) + (dy as i128) * (dy as i128);
    proof {
        assert(q as int == sq_dist(*a, *b));
    }
    isqrt(q as u128)
}

/// Closed-tour Euclidean length on the integer grid, with a designated anchor
/// location that random generation fixes at position 0.
pub struct TSPObjective {
    pub anchor: String,
}

impl Objective<Solution, Data> for TSPObjective {
    open spec fn spec_cost(&self, solution: Seq<CityData>) -> int {
        tour_cost(solution)
    }

    open spec fn data_wf(&self, data: Data) -> bool {
        &&& data.wf()
        &&& data.contains_name(self.anchor@)
    }

    open spec fn feasible(&self, data: Data, solution: Seq<CityData>) -> bool {
        &&& solution.len() == data.cities@.len()
        &&& solution.to_multiset() == data.cities@.to_multiset()
        &&& 0 < solution.len()
        &&& solution[0].city_name@ == self.anchor@
    }

    /// Sum of the Euclidean edges between consecutive tour positions plus the
    /// closing edge; tours of length 0 or 1 are special-cased to cost 0.
    fn evaluate(&self, solution: &Solution) -> (cost: u128) {
        let n = solution.len();
        if n <= 1 {
            proof {
                if n == 1 {
                    let es = edge_seq(solution@);
                    assert(sq_dist(solution@[0], solution@[0]) == 0) by (nonlinear_arith);
                    assert(es[0] == 0);
                    assert(sum_from(es, 1) == 0);
                    assert(tour_cost(solution@) == 0);
                }
            }
            return 0;
        }
        let ghost es = edge_seq(solution@);
        let mut total: u128 = 0;
        let mut i: usize = 0;
        while i < n - 1
            invariant
                2 <= n,
                n == solution@.len(),
                i <= n - 1,
                total + sum_from(edge_seq(solution@), i as nat) == tour_cost(solution@),
                total <= (i as int) * 0x200000000,
            decreases n - 1 - i,
        {
            let d = dist(&solution[i], &solution[i + 1]);
            proof {
                vstd::arithmetic::div_mod::lemma_small_mod((i + 1) as nat, n as nat);
                assert((i as int + 1) % (solution@.len() as int) == i as int + 1);
                assert(edge_seq(solution@)[i as int] == edge_dist(
                    solution@[i as int],
                    solution@[(i as int + 1) % (solution@.len() as int)],
                ));
                assert((i as int) * 0x200000000 + 0x200000000 == (i as int + 1) * 0x200000000)
                    by (nonlinear_arith);
                assert((i as int + 1) * 0x200000000 <= 0x10000000000000000 * 0x200000000)
                    by (nonlinear_arith)
                    requires
                        i as int + 1 <= 0x10000000000000000,
                ;
            }
            total = total + (d as u128);
            i += 1;
        }
        let d = dist(&solution[n - 1], &solution[0]);
        proof {
            vstd::arithmetic::div_mod::lemma_mod_self_0(n as int);
            assert((n - 1 as int + 1) % (solution@.len() as int) == 0);
            assert(edge_seq(solution@)[n - 1] == edge_dist(
                solution@[n - 1],
                solution@[(n - 1 as int + 1) % (solution@.len() as int)],
            ));
            assert(edge_seq(solution@)[n - 1] == edge_dist(solution@[n - 1], solution@[0]));
            assert(sum_from(edge_seq(solution@), n as nat) == 0);
            assert((i as int) * 0x200000000 <= 0x10000000000000000 * 0x200000000)
                by (nonlinear_arith)
                requires
                    i as int <= 0x10000000000000000,
            ;
        }
        total + (d as u128)
    }

    /// A uniformly random tour over the whole dataset with the anchor fixed
    /// at position 0: sampling without replacement from the other locations.
    fn random(&self, data: &Data) -> (solution: Solution) {
        random_tour(self, data)
    }
}

/// Relies on rand: `Rng::random_range(0..n)` on a non-empty range returns a
/// uniform sample from it, so the result is strictly below `n`.
#[verifier::external_body]
fn random_below(n: usize) -> (r: usize)
    requires
        1 <= n,
    ensures
        r < n,
{
    rand::rng().random_range(0..n)
}

/// Build a random anchored tour: the anchor first, then the remaining
/// locations in an order drawn by sampling without replacement.
fn random_tour(objective: &TSPObjective, data: &Data) -> (solution: Solution)
    requires
        objective.data_wf(*data),
    ensures
        objective.feasible(*data, solution@),
{
    broadcast use vstd::seq_lib::group_to_multiset_ensures;

    let n = data.cities.len();
    let mut idx: usize = 0;
    while idx < n && !(data.cities[idx].city_name == objective.anchor)
        invariant
            n == data.cities@.len(),
            idx <= n,
            forall|j: int|
                0 <= j < idx ==> (#[trigger] data.cities@[j]).city_name@ != objective.anchor@,
        decreases n - idx,
    {
        idx += 1;
    }
    proof {
        assert(idx < n) by {
            let w = choose|w: int|
                0 <= w < data.cities@.len() && (#[trigger] data.cities@[w]).city_name@
                    == objective.anchor@;
            if idx >= n {
                assert(data.cities@[w].city_name@ != objective.anchor@);
            }
        }
    }
    let anchor_city = data.cities[idx].clone();

    let mut available: Vec<CityData> = Vec::new();
    let mut k: usize = 0;
    while k < n
        invariant
            n == data.cities@.len(),
            idx < n,
            k <= n,
            k <= idx ==> available@ == data.cities@.subrange(0, k as int),
            k > idx ==> available@ == data.cities@.subrange(0, idx as int) + data.cities@.subrange(
                idx as int + 1,
                k as int,
            ),
        decreases n - k,
    {
        if k != idx {
            available.push(data.cities[k].clone());
        }
        proof {
            if k < idx {
                assert(available@ =~= data.cities@.subrange(0, k as int + 1));
            } else if k == idx {
                assert(available@ =~= data.cities@.subrange(0, idx as int) + data.cities@.subrange(
                    idx as int + 1,
                    k as int + 1,
                ));
            } else {
                assert(available@ =~= data.cities@.subrange(0, idx as int) + data.cities@.subrange(
                    idx as int + 1,
                    k as int + 1,
                ));
            }
        }
        k += 1;
    }
    proof {
        let full = data.cities@;
        assert(full =~= full.subrange(0, idx as int) + seq![full[idx as int]] + full.subrange(
            idx as int + 1,
            n as int,
        ));
        vstd::seq_lib::lemma_multiset_commutative(
            full.subrange(0, idx as int) + seq![full[idx as int]],
            full.subrange(idx as int + 1, n as int),
        );
        vstd::seq_lib::lemma_multiset_commutative(
            full.subrange(0, idx as int),
            seq![full[idx as int]],
        );
        vstd::seq_lib::lemma_multiset_commutative(
            full.subrange(0, idx as int),
            full.subrange(idx as int + 1, n as int),
        );
        assert(full.to_multiset() =~= (full.subrange(0, idx as int) + full.subrange(
            idx as int + 1,
            n as int,
        )).to_multiset().add(seq![full[idx as int]].to_multiset()));
    }

    let mut solution: Vec<CityData> = Vec::new();
    solution.push(anchor_city);
    proof {
        assert(seq![data.cities@[idx as int]].to_multiset() =~= solution@.to_multiset()) by {
            assert(seq![data.cities@[idx as int]] =~= Seq::<CityData>::empty().push(
                data.cities@[idx as int],
            ));
            assert(solution@ =~= Seq::<CityData>::empty().push(data.cities@[idx as int]));
        }
        assert(solution@.to_multiset().add(available@.to_multiset()) =~= data.cities@
            .to_multiset());
    }
    while available.len() > 0
        invariant
            1 <= solution@.len(),
            solution@[0] == data.cities@[idx as int],
            solution@.len() + available@.len() == data.cities@.len(),
            solution@.to_multiset().add(available@.to_multiset()) == data.cities@.to_multiset(),
        decreases available@.len(),
    {
        let pick = random_below(available.len());
        let ghost old_avail = available@;
        let city = available.swap_remove(pick);
        proof {
            lemma_swap_remove_multiset(old_avail, pick as int);
            assert(old_avail[pick as int] == city);
            assert(old_avail.contains(city));
            vstd::seq_lib::to_multiset_contains::<CityData>(old_avail, city);
            assert(old_avail.to_multiset().count(city) > 0);
        }
        let ghost old_sol = solution@;
        solution.push(city);
        proof {
            assert(solution@ =~= old_sol.push(city));
            vstd::seq_lib::to_multiset_build::<CityData>(old_sol, city);
            assert(old_sol.push(city).to_multiset() =~= old_sol.to_multiset().insert(city));
            assert(available@.to_multiset() =~= old_avail.to_multiset().remove(city));
            assert(solution@.to_multiset().add(available@.to_multiset()) =~= data.cities@
                .to_multiset());
        }
    }
    proof {
        assert(available@ =~= Seq::<CityData>::empty());
        assert(solution@.to_multiset().add(available@.to_multiset()) =~= solution@.to_multiset());
    }
    solution
}

/// The tour with the contiguous segment of positions `i ..= j` reversed.
pub open spec fn reverse_seg(s: Seq<CityData>, i: int, j: int) -> Seq<CityData> {
    Seq::new(s.len(), |k: int| if i <= k && k <= j { s[j - (k - i)] } else { s[k] })
}

/// All 2-opt candidates whose reversed segment starts at `i`: one for each
/// right endpoint `j` in `i + 1 ..= s.len() - 1`, in order.
pub open spec fn nb_row(s: Seq<CityData>, i: int) -> Seq<Seq<CityData>> {
    if 0 <= i && i + 2 <= s.len() {
        Seq::new((s.len() - 1 - i) as nat, |t: int| reverse_seg(s, i, i + 1 + t))
    } else {
        Seq::empty()
    }
}

/// All 2-opt candidates whose reversed segment starts before `i`, ordered by
/// left endpoint, then right endpoint.
pub open spec fn nb_upto(s: Seq<CityData>, i: int) -> Seq<Seq<CityData>>
    decreases i,
{
    if i <= 1 {
        Seq::empty()
    } else {
        nb_upto(s, i - 1) + nb_row(s, i - 1)
    }
}

/// Every 2-opt segment reversal of the tour: one candidate for each pair
/// (i, j) with 1 <= i < j <= len - 1, so position 0 is never touched.
pub open spec fn two_opt_neighbors(s: Seq<CityData>) -> Seq<Seq<CityData>> {
    nb_upto(s, s.len() - 1)
}

/// The 2-opt neighborhood: every reversal of one contiguous segment of the
/// tour that leaves the anchor at position 0 in place.
pub struct TSPNeighborhood;

impl Neighborhood<Solution> for TSPNeighborhood {
    open spec fn spec_neighbors(&self, solution: Seq<CityData>) -> Seq<Seq<CityData>> {
        two_opt_neighbors(solution)
    }

    /// Enumerate all 2-opt candidates eagerly, each built as a fresh copy of
    /// the tour with one segment reversed.
    fn neighbors(&self, solution: &Solution) -> (result: Vec<Solution>) {
        let n = solution.len();
        let mut result: Vec<Solution> = Vec::new();
        if n < 2 {
            return result;
        }
        let mut i: usize = 1;
        while i < n - 1
            invariant
                2 <= n,
                n == solution@.len(),
                1 <= i <= n - 1,
                result@.len() == nb_upto(solution@, i as int).len(),
                forall|k: int|
                    0 <= k < result@.len() ==> (#[trigger] result@[k])@ == nb_upto(
                        solution@,
                        i as int,
                    )[k],
            decreases n - 1 - i,
        {
            let ghost base = nb_upto(solution@, i as int);
            let mut j: usize = i + 1;
            while j < n
                invariant
                    2 <= n,
                    n == solution@.len(),
                    1 <= i < n - 1,
                    i + 1 <= j <= n,
                    base == nb_upto(solution@, i as int),
                    result@.len() == base.len() + (j - i - 1),
                    forall|k: int|
                        0 <= k < result@.len() ==> (#[trigger] result@[k])@ == (base + nb_row(
                            solution@,
                            i as int,
                        ).take(j - i - 1))[k],
                decreases n - j,
            {
                let mut cand: Vec<CityData> = Vec::new();
                let mut k: usize = 0;
                while k < n
                    invariant
                        2 <= n,
                        n == solution@.len(),
                        1 <= i < j < n,
                        k <= n,
                        cand@ == reverse_seg(solution@, i as int, j as int).take(k as int),
                    decreases n - k,
                {
                    let ghost rs = reverse_seg(solution@, i as int, j as int);
                    if i <= k && k <= j {
                        cand.push(solution[j - (k - i)].clone());
                    } else {
                        cand.push(solution[k].clone());
                    }
                    proof {
                        assert(rs[k as int] == (if i as int <= k as int && k as int <= j as int {
                            solution@[j as int - (k as int - i as int)]
                        } else {
                            solution@[k as int]
                        }));
                        assert(cand@ =~= rs.take(k as int + 1));
                    }
                    k += 1;
                }
                proof {
                    assert(cand@ =~= reverse_seg(solution@, i as int, j as int));
                }
                result.push(cand);
                proof {
                    let row = nb_row(solution@, i as int);
                    assert(row[j - i - 1] == reverse_seg(solution@, i as int, j as int));
                    assert(row.take(j - i) =~= row.take(j - i - 1).push(row[j - i - 1]));
                }
                j += 1;
            }
            proof {
                let row = nb_row(solution@, i as int);
                assert(row.take(n - 1 - i as int) =~= row);
                assert(nb_upto(solution@, i as int + 1) == base + row);
            }
            i += 1;
        }
        proof {
            assert(nb_upto(solution@, n - 1 as int) == two_opt_neighbors(solution@));
        }
        result
    }
}

/// Removing position `i` by swapping in the last element removes exactly one
/// occurrence of `s[i]` from the contents.
proof fn lemma_swap_remove_multiset(s: Seq<CityData>, i: int)
    requires
        0 <= i < s.len(),
    ensures
        s.update(i, s.last()).drop_last().to_multiset() == s.to_multiset().remove(s[i]),
{
    broadcast use vstd::seq_lib::group_to_multiset_ensures;

    let n = s.len() as int;
    let u = s.update(i, s.last());
    assert(u.to_multiset() =~= s.to_multiset().remove(s[i]).insert(s.last()));
    assert(u.drop_last() =~= u.remove(n - 1));
    assert(u.remove(n - 1).to_multiset() =~= u.to_multiset().remove(u[n - 1]));
    assert(u[n - 1] == s.last());
    assert(s.to_multiset().remove(s[i]).insert(s.last()).remove(s.last()) =~= s.to_multiset()
        .remove(s[i]));
}

} // verus!
