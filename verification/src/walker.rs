//! The heuristic solver: multi-start nearest-neighbor search.
//!
//! For every starting point in turn, the route is grown by repeatedly
//! appending the unvisited point closest to the route's current tail, ties
//! going to the smallest id; the best-scoring of these routes wins, ties
//! going to the earliest start. Used when the point count puts the exact
//! search out of reach.

use vstd::prelude::*;
use vstd::seq_lib::{to_multiset_remove, to_multiset_contains};

use crate::cloud::Cloud;
use crate::solver::is_perm_of;

verus! {

broadcast use vstd::multiset::group_multiset_axioms;

/// Removing an element keeps a sequence duplicate-free.
proof fn lemma_remove_no_dup(s: Seq<i32>, i: int)
    requires
        s.no_duplicates(),
        0 <= i < s.len(),
    ensures
        s.remove(i).no_duplicates(),
{
    let t = s.remove(i);
    assert forall|m: int, n: int| 0 <= m < t.len() && 0 <= n < t.len() && m != n implies t[m]
        != t[n] by {
        let m2 = if m < i { m } else { m + 1 };
        let n2 = if n < i { n } else { n + 1 };
        assert(t[m] == s[m2] && t[n] == s[n2]);
    }
}

impl Cloud {
    /// `x` beats `y` as the next hop from `cur`: strictly closer, or as
    /// close with the smaller id.
    pub open spec fn closer(self, cur: i32, x: i32, y: i32) -> bool {
        self.pair_dist(cur, x) < self.pair_dist(cur, y) || (self.pair_dist(cur, x)
            == self.pair_dist(cur, y) && x < y)
    }

    /// The index of the next hop from `cur` among the points of `rem`: the
    /// closest, ties to the smallest id (meaningful for nonempty `rem`).
    pub open spec fn nn_next(self, cur: i32, rem: Seq<i32>) -> int
        decreases rem.len(),
    {
        if rem.len() <= 1 {
            0
        } else {
            let k: int = 1 + self.nn_next(cur, rem.drop_first());
            if self.closer(cur, rem[0], rem[k]) {
                0
            } else {
                k
            }
        }
    }

    /// The greedy continuation from `cur` through all of `rem`.
    pub open spec fn greedy_from(self, cur: i32, rem: Seq<i32>) -> Seq<i32>
        decreases rem.len(),
        via Self::greedy_from_decreases
    {
        if rem.len() == 0 {
            Seq::empty()
        } else {
            let k = self.nn_next(cur, rem);
            seq![rem[k]] + self.greedy_from(rem[k], rem.remove(k))
        }
    }

    #[via_fn]
    proof fn greedy_from_decreases(self, cur: i32, rem: Seq<i32>) {
        if rem.len() > 0 {
            self.lemma_nn_next_in_range(cur, rem);
        }
    }

    /// The full nearest-neighbor route that starts at `points[k]`.
    pub open spec fn walk_from(self, points: Seq<i32>, k: int) -> Seq<i32> {
        seq![points[k]] + self.greedy_from(points[k], points.remove(k))
    }

    pub proof fn lemma_nn_next_in_range(self, cur: i32, rem: Seq<i32>)
        requires
            rem.len() >= 1,
        ensures
            0 <= self.nn_next(cur, rem) < rem.len(),
        decreases rem.len(),
    {
        if rem.len() > 1 {
            self.lemma_nn_next_in_range(cur, rem.drop_first());
        }
    }

    /// The chosen next hop beats every other point of `rem`.
    proof fn lemma_nn_next_min(self, cur: i32, rem: Seq<i32>)
        requires
            rem.len() >= 1,
            rem.no_duplicates(),
        ensures
            0 <= self.nn_next(cur, rem) < rem.len(),
            forall|m: int|
                0 <= m < rem.len() && m != self.nn_next(cur, rem) ==> self.closer(
                    cur,
                    rem[self.nn_next(cur, rem)],
                    rem[m],
                ),
        decreases rem.len(),
    {
        self.lemma_nn_next_in_range(cur, rem);
        if rem.len() > 1 {
            let tail = rem.drop_first();
            assert(tail.no_duplicates()) by {
                assert(tail =~= rem.remove(0));
                lemma_remove_no_dup(rem, 0);
            }
            self.lemma_nn_next_min(cur, tail);
            let kt = self.nn_next(cur, tail);
            let k = self.nn_next(cur, rem);
            assert(k == if self.closer(cur, rem[0], rem[1 + kt]) { 0int } else { 1 + kt });
            assert forall|m: int|
                0 <= m < rem.len() && m != k implies self.closer(cur, rem[k], rem[m]) by {
                if k == 0 {
                    assert(self.closer(cur, rem[0], rem[1 + kt]));
                    assert(rem[m] == tail[m - 1]);
                    if m - 1 != kt {
                        assert(self.closer(cur, tail[kt], tail[m - 1]));
                        assert(rem[m] == tail[m - 1] && rem[1 + kt] == tail[kt]);
                    }
                } else {
                    assert(k == 1 + kt);
                    assert(rem[k] == tail[kt]);
                    if m == 0 {
                        assert(!self.closer(cur, rem[0], rem[k]));
                        assert(rem[0] != rem[k]);
                    } else {
                        assert(rem[m] == tail[m - 1]);
                        assert(m - 1 != kt);
                        assert(self.closer(cur, tail[kt], tail[m - 1]));
                    }
                }
            }
        }
    }

    /// The greedy continuation visits exactly the points of `rem`.
    pub proof fn lemma_greedy_perm(self, cur: i32, rem: Seq<i32>)
        ensures
            is_perm_of(self.greedy_from(cur, rem), rem),
        decreases rem.len(),
    {
        if rem.len() == 0 {
            assert(self.greedy_from(cur, rem) =~= rem);
        } else {
            self.lemma_nn_next_in_range(cur, rem);
            let k = self.nn_next(cur, rem);
            let x = rem[k];
            self.lemma_greedy_perm(x, rem.remove(k));
            let g = self.greedy_from(cur, rem);
            let t = self.greedy_from(x, rem.remove(k));
            assert(g == seq![x] + t);
            assert(g =~= t.insert(0, x));
            vstd::seq_lib::to_multiset_insert(t, 0, x);
            to_multiset_remove(rem, k);
            to_multiset_contains(rem, x);
            assert(rem.contains(x));
            assert forall|y: i32| g.to_multiset().count(y) == rem.to_multiset().count(y) by {}
            assert(g.to_multiset() =~= rem.to_multiset());
        }
    }

    /// A full walk visits exactly the points of `points`.
    pub proof fn lemma_walk_perm(self, points: Seq<i32>, k: int)
        requires
            0 <= k < points.len(),
        ensures
            is_perm_of(self.walk_from(points, k), points),
    {
        self.lemma_greedy_perm(points[k], points.remove(k));
        let w = self.walk_from(points, k);
        let t = self.greedy_from(points[k], points.remove(k));
        assert(w =~= t.insert(0, points[k]));
        vstd::seq_lib::to_multiset_insert(t, 0, points[k]);
        to_multiset_remove(points, k);
        to_multiset_contains(points, points[k]);
        assert(points.contains(points[k]));
        assert forall|y: i32| w.to_multiset().count(y) == points.to_multiset().count(y) by {}
        assert(w.to_multiset() =~= points.to_multiset());
    }

    /// The index of the point of `rem` nearest to `cur`, ties to the
    /// smallest id.
    fn nearest(&self, cur: i32, rem: &Vec<i32>) -> (k: usize)
        requires
            self.wf(),
            rem@.len() >= 1,
            rem@.no_duplicates(),
        ensures
            k as int == self.nn_next(cur, rem@),
    {
        let n = rem.len();
        let mut best: usize = 0;
        let mut best_d: u64 = match self.distance_between(&cur, &rem[0]) {
            Some(d) => d,
            None => 0,
        };
        let mut m: usize = 1;
        while m < n
            invariant
                self.wf(),
                rem@.no_duplicates(),
                n == rem@.len(),
                1 <= m <= n,
                0 <= best < m,
                best_d == self.pair_dist(cur, rem@[best as int]),
                forall|m2: int|
                    0 <= m2 < m && m2 != best ==> self.closer(
                        cur,
                        rem@[best as int],
                        rem@[m2],
                    ),
            decreases n - m,
        {
            let d: u64 = match self.distance_between(&cur, &rem[m]) {
                Some(d) => d,
                None => 0,
            };
            proof {
                self.lemma_pair_dist_bounds(cur, rem@[m as int]);
            }
            if d < best_d || (d == best_d && rem[m] < rem[best]) {
                best = m;
                best_d = d;
            }
            m = m + 1;
        }
        proof {
            self.lemma_nn_next_min(cur, rem@);
            let k = self.nn_next(cur, rem@);
            if k != best as int {
                assert(self.closer(cur, rem@[k], rem@[best as int]));
                assert(self.closer(cur, rem@[best as int], rem@[k]));
                assert(false);
            }
        }
        best
    }

    /// Build the nearest-neighbor route starting at `points[start]`.
    fn walk(&self, points: &Vec<i32>, start: usize) -> (r: Vec<i32>)
        requires
            self.wf(),
            points@.no_duplicates(),
            start < points@.len(),
        ensures
            r@ == self.walk_from(points@, start as int),
    {
        let mut route: Vec<i32> = Vec::new();
        route.push(points[start]);
        let mut cur: i32 = points[start];
        let mut rem = points.clone();
        rem.remove(start);
        proof {
            lemma_remove_no_dup(points@, start as int);
            assert(route@ + self.greedy_from(cur, rem@) =~= self.walk_from(
                points@,
                start as int,
            ));
        }
        while rem.len() > 0
            invariant
                self.wf(),
                rem@.no_duplicates(),
                route@.len() >= 1,
                cur == route@.last(),
                route@ + self.greedy_from(cur, rem@) == self.walk_from(points@, start as int),
            decreases rem@.len(),
        {
            let k = self.nearest(cur, &rem);
            proof {
                self.lemma_nn_next_in_range(cur, rem@);
            }
            let x = rem[k];
            let ghost old_route = route@;
            let ghost old_rem = rem@;
            let ghost old_cur = cur;
            route.push(x);
            rem.remove(k);
            cur = x;
            proof {
                lemma_remove_no_dup(old_rem, k as int);
                assert(rem@ == old_rem.remove(k as int));
                assert(self.greedy_from(old_cur, old_rem) == seq![x] + self.greedy_from(
                    x,
                    rem@,
                ));
                assert(route@ + self.greedy_from(cur, rem@) =~= old_route + (seq![x]
                    + self.greedy_from(x, rem@)));
            }
        }
        proof {
            assert(self.greedy_from(cur, rem@) =~= Seq::<i32>::empty());
            assert(route@ =~= route@ + self.greedy_from(cur, rem@));
        }
        route
    }

    /// The best multi-start nearest-neighbor route: every point is tried as
    /// a start, and the shortest resulting route wins, ties going to the
    /// earliest start in the order of `points`.
    pub fn lazzy_walker(&self, points: &Vec<i32>) -> (r: (u128, Vec<i32>))
        requires
            self.wf(),
            points@.no_duplicates(),
            points@.len() >= 1,
        ensures
            is_perm_of(r.1@, points@),
            r.0 == self.route_dist(r.1@),
            forall|k: int|
                0 <= k < points@.len() ==> self.route_dist(self.walk_from(points@, k)) >= r.0,
            exists|k: int|
                0 <= k < points@.len() && r.1@ == self.walk_from(points@, k) && (forall|k2: int|
                    0 <= k2 < k ==> self.route_dist(self.walk_from(points@, k2)) > r.0),
    {
        let n = points.len();
        let mut best_route = self.walk(points, 0);
        let mut best_d = self.route_distance(&best_route);
        let ghost mut best_k: int = 0;
        let mut k: usize = 1;
        while k < n
            invariant
                self.wf(),
                points@.no_duplicates(),
                n == points@.len(),
                1 <= k <= n,
                0 <= best_k < k,
                best_route@ == self.walk_from(points@, best_k),
                best_d == self.route_dist(best_route@),
                forall|k2: int|
                    0 <= k2 < k ==> self.route_dist(self.walk_from(points@, k2)) >= best_d,
                forall|k2: int|
                    0 <= k2 < best_k ==> self.route_dist(self.walk_from(points@, k2)) > best_d,
            decreases n - k,
        {
            let route = self.walk(points, k);
            let d = self.route_distance(&route);
            if d < best_d {
                best_d = d;
                best_route = route;
                proof {
                    best_k = k as int;
                }
            }
            k = k + 1;
        }
        proof {
            self.lemma_walk_perm(points@, best_k);
        }
        (best_d, best_route)
    }
}

} // verus!
