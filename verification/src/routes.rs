//! Route selection: the ordinal baseline ordering and the dispatch between
//! the exact and the heuristic solver.
//!
//! The baseline ("ordinal") route visits points ascending by the sort key
//! parsed from their names, ties broken by id. The best route is chosen by
//! point count: trivial up to two points, exact search below ten, the
//! nearest-neighbor heuristic from ten on. The solvers are seeded with the
//! ids in ascending order and never look at a label, so only the baseline
//! can fail on a malformed name.

use vstd::prelude::*;
use vstd::seq_lib::{to_multiset_build, to_multiset_len, to_multiset_contains};

use crate::cloud::Cloud;
use crate::label::{LabelError, LabelKey};
use crate::solver::{is_perm_of, lemma_perm_no_duplicates};

verus! {

broadcast use vstd::multiset::group_multiset_axioms;

/// Strict lexicographic order on (group ordinal, sub-index, id) keys.
pub open spec fn key_lt(a: (u32, u32, i32), b: (u32, u32, i32)) -> bool {
    ||| a.0 < b.0
    ||| (a.0 == b.0 && a.1 < b.1)
    ||| (a.0 == b.0 && a.1 == b.1 && a.2 < b.2)
}

pub open spec fn strictly_increasing(s: Seq<i32>) -> bool {
    forall|a: int, b: int| 0 <= a < b < s.len() ==> s[a] < s[b]
}

/// Which of the two routes `compute_route` answers with.
#[derive(Clone, Copy, Debug, PartialEq, Eq, Structural)]
pub enum Strategy {
    /// The ordinal baseline: catalog order, parsed from the names.
    Baseline,
    /// The shortest route the selector can find for the point count.
    Auto,
}

proof fn lemma_key_lt_asym(a: (u32, u32, i32), b: (u32, u32, i32))
    requires
        key_lt(a, b),
    ensures
        !key_lt(b, a),
{
}

proof fn lemma_key_le_trans(a: (u32, u32, i32), b: (u32, u32, i32), c: (u32, u32, i32))
    requires
        !key_lt(b, a),
        !key_lt(c, b),
    ensures
        !key_lt(c, a),
{
}

fn key_lt_exec(a: (u32, u32, i32), b: (u32, u32, i32)) -> (r: bool)
    ensures
        r == key_lt(a, b),
{
    a.0 < b.0 || (a.0 == b.0 && a.1 < b.1) || (a.0 == b.0 && a.1 == b.1 && a.2 < b.2)
}

/// Sort a vector of ids ascending (insertion sort; point sets are small).
fn sort_ascending(v: &Vec<i32>) -> (r: Vec<i32>)
    ensures
        is_perm_of(r@, v@),
        forall|a: int, b: int| 0 <= a < b < r@.len() ==> r@[a] <= r@[b],
{
    let n = v.len();
    let mut out: Vec<i32> = Vec::new();
    let mut i: usize = 0;
    proof {
        assert(v@.take(0) =~= Seq::<i32>::empty());
        assert(out@.to_multiset() =~= v@.take(0).to_multiset());
    }
    while i < n
        invariant
            i <= n,
            n == v@.len(),
            out@.len() == i,
            out@.to_multiset() == v@.take(i as int).to_multiset(),
            forall|a: int, b: int| 0 <= a < b < out@.len() ==> out@[a] <= out@[b],
        decreases n - i,
    {
        let x = v[i];
        let mut p: usize = 0;
        while p < out.len()
            invariant
                p <= out@.len(),
                forall|m: int| 0 <= m < p ==> out@[m] < x,
            ensures
                p <= out@.len(),
                forall|m: int| 0 <= m < p ==> out@[m] < x,
                p < out@.len() ==> out@[p as int] >= x,
            decreases out@.len() - p,
        {
            if out[p] >= x {
                break;
            }
            p = p + 1;
        }
        let ghost old_out = out@;
        out.insert(p, x);
        proof {
            vstd::seq_lib::to_multiset_insert(old_out, p as int, x);
            assert(v@.take(i + 1).drop_last() =~= v@.take(i as int));
            assert(v@.take(i + 1).last() == v@[i as int]);
            assert(v@.take(i + 1) =~= v@.take(i as int).push(v@[i as int]));
            to_multiset_build(v@.take(i as int), v@[i as int]);
            assert forall|a: int, b: int|
                0 <= a < b < out@.len() implies out@[a] <= out@[b] by {
                if b < p {
                    assert(out@[a] == old_out[a] && out@[b] == old_out[b]);
                } else if a > p {
                    assert(out@[a] == old_out[a - 1] && out@[b] == old_out[b - 1]);
                } else if a == p {
                    assert(out@[b] == old_out[b - 1]);
                    assert(p < old_out.len() ==> x <= old_out[p as int]);
                } else if b == p {
                    assert(out@[a] == old_out[a]);
                } else {
                    assert(a < p && b > p);
                    assert(out@[a] == old_out[a] && out@[b] == old_out[b - 1]);
                    assert(p < old_out.len() ==> x <= old_out[p as int]);
                }
            }
        }
        i = i + 1;
    }
    proof {
        assert(v@.take(n as int) =~= v@);
    }
    out
}

impl Cloud {
    /// The ordinal sort key of a point: the parsed (group, sub-index) pair,
    /// with the id as final tie-break ((0, 0) stands in for a label that
    /// failed to parse; the baseline never sorts such points).
    pub open spec fn ord_key(self, id: i32) -> (u32, u32, i32) {
        match self.place_of(id).label {
            Ok(k) => (k.cloud_number, k.belt_number, id),
            Err(_) => (0u32, 0u32, id),
        }
    }

    /// All stored labels parsed successfully.
    pub open spec fn labels_ok(self) -> bool {
        forall|i: int| 0 <= i < self.len() ==> (#[trigger] self.model()[i]).label is Ok
    }

    /// `e` is the label error of the earliest-added point with a malformed
    /// name.
    pub open spec fn is_first_label_error(self, e: LabelError) -> bool {
        exists|i: int|
            0 <= i < self.len() && (#[trigger] self.model()[i]).label == Err::<
                LabelKey,
                LabelError,
            >(e) && (forall|m: int| 0 <= m < i ==> (#[trigger] self.model()[m]).label is Ok)
    }

    /// The route is sorted strictly by ordinal key.
    pub open spec fn sorted_by_keys(self, s: Seq<i32>) -> bool {
        forall|a: int, b: int|
            0 <= a < b < s.len() ==> key_lt(self.ord_key(s[a]), self.ord_key(s[b]))
    }

    /// The ordinal key of an id, looked up in the cache.
    fn ord_key_exec(&self, id: &i32) -> (r: (u32, u32, i32))
        requires
            self.wf(),
            self.has(*id),
        ensures
            r == self.ord_key(*id),
    {
        match self.find(id) {
            Some(k) => {
                proof {
                    self.lemma_found_index(*id, k as int);
                }
                match self.place_label(k) {
                    Ok(key) => (key.cloud_number, key.belt_number, *id),
                    Err(_) => (0, 0, *id),
                }
            },
            None => (0, 0, *id),
        }
    }

    /// The ids of all points, in insertion order.
    fn all_ids(&self) -> (r: Vec<i32>)
        ensures
            r@ == self.ids(),
    {
        let n = self.places_len();
        let mut r: Vec<i32> = Vec::new();
        let mut i: usize = 0;
        proof {
            assert(r@ =~= self.ids().take(0));
        }
        while i < n
            invariant
                i <= n,
                n == self.len(),
                r@ == self.ids().take(i as int),
            decreases n - i,
        {
            let id = self.place_id(i);
            r.push(id);
            proof {
                assert(r@ =~= self.ids().take(i + 1));
            }
            i = i + 1;
        }
        proof {
            assert(self.ids().take(n as int) =~= self.ids());
        }
        r
    }

    /// Sort ids ascending by ordinal key (insertion sort; point sets are
    /// small, and each key is re-read from the cache).
    fn sort_by_ord_key(&self, v: &Vec<i32>) -> (r: Vec<i32>)
        requires
            self.wf(),
            forall|m: int| 0 <= m < v@.len() ==> self.has(#[trigger] v@[m]),
        ensures
            is_perm_of(r@, v@),
            forall|m: int| 0 <= m < r@.len() ==> self.has(#[trigger] r@[m]),
            forall|a: int, b: int|
                0 <= a < b < r@.len() ==> !key_lt(self.ord_key(r@[b]), self.ord_key(r@[a])),
    {
        let n = v.len();
        let mut out: Vec<i32> = Vec::new();
        let mut i: usize = 0;
        proof {
            assert(v@.take(0) =~= Seq::<i32>::empty());
            assert(out@.to_multiset() =~= v@.take(0).to_multiset());
        }
        while i < n
            invariant
                self.wf(),
                i <= n,
                n == v@.len(),
                forall|m: int| 0 <= m < v@.len() ==> self.has(#[trigger] v@[m]),
                out@.len() == i,
                out@.to_multiset() == v@.take(i as int).to_multiset(),
                forall|m: int| 0 <= m < out@.len() ==> self.has(#[trigger] out@[m]),
                forall|a: int, b: int|
                    0 <= a < b < out@.len() ==> !key_lt(
                        self.ord_key(out@[b]),
                        self.ord_key(out@[a]),
                    ),
            decreases n - i,
        {
            let x = v[i];
            let kx = self.ord_key_exec(&x);
            let mut p: usize = 0;
            while p < out.len()
                invariant
                    self.wf(),
                    kx == self.ord_key(x),
                    p <= out@.len(),
                    forall|m: int| 0 <= m < out@.len() ==> self.has(#[trigger] out@[m]),
                    forall|m: int| 0 <= m < p ==> key_lt(self.ord_key(#[trigger] out@[m]), kx),
                ensures
                    p <= out@.len(),
                    forall|m: int| 0 <= m < p ==> key_lt(self.ord_key(#[trigger] out@[m]), kx),
                    p < out@.len() ==> !key_lt(self.ord_key(out@[p as int]), kx),
                decreases out@.len() - p,
            {
                let kp = self.ord_key_exec(&out[p]);
                if !key_lt_exec(kp, kx) {
                    break;
                }
                p = p + 1;
            }
            let ghost old_out = out@;
            out.insert(p, x);
            proof {
                vstd::seq_lib::to_multiset_insert(old_out, p as int, x);
                assert(v@.take(i + 1) =~= v@.take(i as int).push(v@[i as int]));
                to_multiset_build(v@.take(i as int), v@[i as int]);
                assert forall|a: int, b: int|
                    0 <= a < b < out@.len() implies !key_lt(
                    self.ord_key(out@[b]),
                    self.ord_key(out@[a]),
                ) by {
                    if b < p {
                        assert(out@[a] == old_out[a] && out@[b] == old_out[b]);
                    } else if a > p {
                        assert(out@[a] == old_out[a - 1] && out@[b] == old_out[b - 1]);
                    } else if a == p {
                        assert(out@[a] == x && out@[b] == old_out[b - 1]);
                        assert(p < old_out.len());
                        assert(!key_lt(self.ord_key(old_out[p as int]), kx));
                        assert(!key_lt(self.ord_key(old_out[b - 1]), self.ord_key(
                            old_out[p as int],
                        )));
                        lemma_key_le_trans(
                            kx,
                            self.ord_key(old_out[p as int]),
                            self.ord_key(old_out[b - 1]),
                        );
                    } else if b == p {
                        assert(out@[a] == old_out[a] && out@[b] == x);
                        assert(key_lt(self.ord_key(old_out[a]), kx));
                        lemma_key_lt_asym(self.ord_key(old_out[a]), kx);
                    } else {
                        assert(a < p && b > p);
                        assert(out@[a] == old_out[a] && out@[b] == old_out[b - 1]);
                        assert(a < b - 1 || a == b - 1);
                        assert(!key_lt(self.ord_key(old_out[b - 1]), self.ord_key(old_out[a])));
                    }
                }
            }
            i = i + 1;
        }
        proof {
            assert(v@.take(n as int) =~= v@);
        }
        out
    }

    /// The baseline route: all ids ascending by the (group, sub-index) key
    /// parsed from their names, ties broken by id, and its total length.
    /// Fails with the error of the earliest-added point whose name does not
    /// parse.
    pub fn get_ordinal_route(&self) -> (r: Result<(u128, Vec<i32>), LabelError>)
        requires
            self.wf(),
        ensures
            match r {
                Ok(p) => {
                    &&& self.labels_ok()
                    &&& is_perm_of(p.1@, self.ids())
                    &&& self.sorted_by_keys(p.1@)
                    &&& p.0 == self.route_dist(p.1@)
                },
                Err(e) => self.is_first_label_error(e),
            },
    {
        let n = self.places_len();
        let mut m: usize = 0;
        while m < n
            invariant
                self.wf(),
                m <= n,
                n == self.len(),
                forall|m2: int| 0 <= m2 < m ==> (#[trigger] self.model()[m2]).label is Ok,
            decreases n - m,
        {
            match self.place_label(m) {
                Ok(_) => {},
                Err(e) => {
                    return Err(e);
                },
            }
            m = m + 1;
        }
        let ids = self.all_ids();
        proof {
            assert forall|m2: int| 0 <= m2 < ids@.len() implies self.has(
                #[trigger] ids@[m2],
            ) by {
                assert(self.ids()[m2] == ids@[m2]);
            }
        }
        let sorted = self.sort_by_ord_key(&ids);
        let d = self.route_distance(&sorted);
        proof {
            lemma_perm_no_duplicates(sorted@, self.ids());
            assert forall|a: int, b: int|
                0 <= a < b < sorted@.len() implies key_lt(
                self.ord_key(sorted@[a]),
                self.ord_key(sorted@[b]),
            ) by {
                assert(sorted@[a] != sorted@[b]);
                assert(!key_lt(self.ord_key(sorted@[b]), self.ord_key(sorted@[a])));
            }
        }
        Ok((d, sorted))
    }

    /// The best route the selector can produce for the current point count
    /// `n`, and its total length:
    /// - `n <= 1`: the trivial route, length 0;
    /// - `n == 2`: the only pair, ascending by id;
    /// - `2 < n < 10`: the exact solver's shortest route over all orders
    ///   (the id-ascending seed itself when it is optimal, else the best
    ///   reversal class in its smaller-id-first orientation);
    /// - `n >= 10`: the multi-start nearest-neighbor heuristic, seeded with
    ///   the ids in ascending order.
    /// Labels are never consulted, so this cannot fail on a malformed name.
    pub fn get_best_route(&self) -> (r: (u128, Vec<i32>))
        requires
            self.wf(),
        ensures
            is_perm_of(r.1@, self.ids()),
            r.0 == self.route_dist(r.1@),
            self.len() == 0 ==> r.0 == 0 && r.1@.len() == 0,
            self.len() == 1 ==> r.0 == 0 && r.1@ == seq![self.ids()[0]],
            self.len() == 2 ==> r.0 == self.pair_dist(self.ids()[0], self.ids()[1])
                && r.1@.len() == 2 && r.1@[0] < r.1@[1],
            2 < self.len() < 10 ==> (forall|s: Seq<i32>|
                is_perm_of(s, self.ids()) ==> self.route_dist(s) >= r.0),
            2 < self.len() < 10 ==> (exists|sorted: Seq<i32>|
                {
                    &&& is_perm_of(sorted, self.ids())
                    &&& strictly_increasing(sorted)
                    &&& (r.0 == self.route_dist(sorted) ==> r.1@ == sorted)
                    &&& (r.0 < self.route_dist(sorted) ==> r.1@[0] < r.1@[r.1@.len() - 1])
                }),
            self.len() >= 10 ==> (exists|sorted: Seq<i32>, k: int|
                {
                    &&& is_perm_of(sorted, self.ids())
                    &&& strictly_increasing(sorted)
                    &&& 0 <= k < sorted.len()
                    &&& r.1@ == self.walk_from(sorted, k)
                    &&& (forall|k2: int|
                        0 <= k2 < sorted.len() ==> self.route_dist(
                            self.walk_from(sorted, k2),
                        ) >= r.0)
                }),
    {
        let ids = self.all_ids();
        let sorted = sort_ascending(&ids);
        proof {
            lemma_perm_no_duplicates(sorted@, self.ids());
            assert forall|a: int, b: int|
                0 <= a < b < sorted@.len() implies sorted@[a] < sorted@[b] by {
                assert(sorted@[a] != sorted@[b]);
            }
        }
        proof {
            to_multiset_len(sorted@);
            to_multiset_len(self.ids());
            assert(sorted@.len() == self.ids().len());
            assert(self.ids().len() == self.len());
        }
        let n = sorted.len();
        if n == 0 {
            let r: Vec<i32> = Vec::new();
            proof {
                to_multiset_len(sorted@);
                to_multiset_len(self.ids());
                assert(r@ =~= sorted@);
            }
            (0, r)
        } else if n == 1 {
            proof {
                to_multiset_len(sorted@);
                to_multiset_len(self.ids());
                to_multiset_contains(sorted@, sorted@[0]);
                to_multiset_contains(self.ids(), sorted@[0]);
                assert(self.ids().contains(sorted@[0]));
                assert(self.ids()[0] == sorted@[0]);
                assert(sorted@ =~= seq![self.ids()[0]]);
            }
            (0, sorted)
        } else if n == 2 {
            let d = self.route_distance(&sorted);
            proof {
                self.lemma_two_ids(sorted@);
            }
            (d, sorted)
        } else if n < 10 {
            let res = self.brute_force(&sorted);
            proof {
                assert forall|s: Seq<i32>| is_perm_of(s, self.ids()) implies self.route_dist(s)
                    >= res.0.0 by {
                    assert(is_perm_of(s, sorted@));
                }
                assert({
                    &&& is_perm_of(sorted@, self.ids())
                    &&& strictly_increasing(sorted@)
                    &&& (res.0.0 == self.route_dist(sorted@) ==> res.0.1@ == sorted@)
                    &&& (res.0.0 < self.route_dist(sorted@) ==> res.0.1@[0]
                        < res.0.1@[res.0.1@.len() - 1])
                });
            }
            res.0
        } else {
            let r = self.lazzy_walker(&sorted);
            proof {
                let k = choose|k: int|
                    0 <= k < sorted@.len() && r.1@ == self.walk_from(sorted@, k) && (forall|
                        k2: int,
                    |
                        0 <= k2 < k ==> self.route_dist(self.walk_from(sorted@, k2)) > r.0);
                assert(is_perm_of(sorted@, self.ids()) && strictly_increasing(sorted@) && 0 <= k
                    < sorted@.len() && r.1@ == self.walk_from(sorted@, k) && (forall|k2: int|
                    0 <= k2 < sorted@.len() ==> self.route_dist(self.walk_from(sorted@, k2))
                        >= r.0));
            }
            r
        }
    }

    /// A two-element reordering of the id set pairs off the same two ids.
    proof fn lemma_two_ids(self, s: Seq<i32>)
        requires
            self.wf(),
            is_perm_of(s, self.ids()),
            s.len() == 2,
    ensures
            self.ids().len() == 2,
            self.route_dist(s) == self.pair_dist(self.ids()[0], self.ids()[1]),
    {
        let ids = self.ids();
        to_multiset_len(s);
        to_multiset_len(ids);
        assert(ids.len() == 2);
        to_multiset_contains(s, s[0]);
        to_multiset_contains(ids, s[0]);
        to_multiset_contains(s, s[1]);
        to_multiset_contains(ids, s[1]);
        assert(ids.contains(s[0]) && ids.contains(s[1]));
        lemma_perm_no_duplicates(s, ids);
        assert(s[0] != s[1]);
        assert((s[0] == ids[0] && s[1] == ids[1]) || (s[0] == ids[1] && s[1] == ids[0]));
        assert(s.drop_last() =~= seq![s[0]]);
        assert(self.route_dist(s.drop_last()) == 0);
        assert(self.route_dist(s) == self.route_dist(s.drop_last()) + self.pair_dist(
            s[s.len() - 2],
            s[s.len() - 1],
        ));
        self.lemma_pair_dist_symmetric(s[0], s[1]);
    }

    /// Answer a route by strategy: the ordinal baseline, or the best route
    /// the selector finds (which never consults a label).
    pub fn compute_route(&self, strategy: Strategy) -> (r: Result<(u128, Vec<i32>), LabelError>)
        requires
            self.wf(),
        ensures
            match strategy {
                Strategy::Baseline => match r {
                    Ok(p) => {
                        &&& self.labels_ok()
                        &&& is_perm_of(p.1@, self.ids())
                        &&& self.sorted_by_keys(p.1@)
                        &&& p.0 == self.route_dist(p.1@)
                    },
                    Err(e) => self.is_first_label_error(e),
                },
                Strategy::Auto => match r {
                    Ok(p) => {
                        &&& is_perm_of(p.1@, self.ids())
                        &&& p.0 == self.route_dist(p.1@)
                        &&& (self.len() == 0 ==> p.0 == 0 && p.1@.len() == 0)
                        &&& (self.len() == 1 ==> p.0 == 0 && p.1@ == seq![self.ids()[0]])
                        &&& (self.len() == 2 ==> p.0 == self.pair_dist(
                            self.ids()[0],
                            self.ids()[1],
                        ) && p.1@.len() == 2 && p.1@[0] < p.1@[1])
                        &&& (2 < self.len() < 10 ==> (forall|s: Seq<i32>|
                            is_perm_of(s, self.ids()) ==> self.route_dist(s) >= p.0))
                        &&& (2 < self.len() < 10 ==> (exists|sorted: Seq<i32>|
                            {
                                &&& is_perm_of(sorted, self.ids())
                                &&& strictly_increasing(sorted)
                                &&& (p.0 == self.route_dist(sorted) ==> p.1@ == sorted)
                                &&& (p.0 < self.route_dist(sorted) ==> p.1@[0]
                                    < p.1@[p.1@.len() - 1])
                            }))
                        &&& (self.len() >= 10 ==> (exists|sorted: Seq<i32>, k: int|
                            {
                                &&& is_perm_of(sorted, self.ids())
                                &&& strictly_increasing(sorted)
                                &&& 0 <= k < sorted.len()
                                &&& p.1@ == self.walk_from(sorted, k)
                                &&& (forall|k2: int|
                                    0 <= k2 < sorted.len() ==> self.route_dist(
                                        self.walk_from(sorted, k2),
                                    ) >= p.0)
                            }))
                    },
                    Err(_) => false,
                },
            },
    {
        match strategy {
            Strategy::Baseline => self.get_ordinal_route(),
            Strategy::Auto => Ok(self.get_best_route()),
        }
    }
}

/// The heuristic is an upper bound on the optimum: a route that visits all
/// the points (as every multi-start nearest-neighbor route does) scores at
/// least the exact solver's minimum.
pub proof fn lemma_heuristic_not_shorter(
    cloud: Cloud,
    ids: Seq<i32>,
    exact_min: int,
    h_route: Seq<i32>,
    h_len: int,
)
    requires
        forall|s: Seq<i32>| is_perm_of(s, ids) ==> cloud.route_dist(s) >= exact_min,
        is_perm_of(h_route, ids),
        h_len == cloud.route_dist(h_route),
    ensures
        h_len >= exact_min,
{
    assert(cloud.route_dist(h_route) >= exact_min);
}

} // verus!
