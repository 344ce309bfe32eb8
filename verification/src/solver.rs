//! The exact solver: the shortest open path over a point set, found by
//! enumerating orderings while visiting each ordering-up-to-reversal once.
//!
//! Orderings are enumerated by endpoint pair: for every unordered pair of
//! points, the one with the smaller id is fixed first and the other last,
//! and all arrangements of the middle are tried. Since an open path and its
//! exact reverse have the same length, this scores each reversal class
//! exactly once: n!/2 scoring evaluations for n points.

use vstd::prelude::*;
use vstd::seq_lib::{lemma_multiset_commutative, to_multiset_build, to_multiset_remove,
    to_multiset_len, to_multiset_contains};

use crate::cloud::Cloud;

verus! {

broadcast use vstd::multiset::group_multiset_axioms;

/// `a` is a reordering of `b`.
pub open spec fn is_perm_of(a: Seq<i32>, b: Seq<i32>) -> bool {
    a.to_multiset() == b.to_multiset()
}

/// n factorial.
pub open spec fn fact(n: nat) -> nat
    decreases n,
{
    if n == 0 {
        1
    } else {
        n * fact((n - 1) as nat)
    }
}

pub proof fn lemma_fact_pos(n: nat)
    ensures
        fact(n) >= 1,
    decreases n,
{
    if n > 0 {
        lemma_fact_pos((n - 1) as nat);
        assert(fact(n) == n * fact((n - 1) as nat));
        assert(n * fact((n - 1) as nat) >= 1) by (nonlinear_arith)
            requires n >= 1, fact((n - 1) as nat) >= 1;
    }
}

pub proof fn lemma_fact_mono(a: nat, b: nat)
    requires
        a <= b,
    ensures
        fact(a) <= fact(b),
    decreases b,
{
    if a < b {
        lemma_fact_mono(a, (b - 1) as nat);
        lemma_fact_pos((b - 1) as nat);
        assert(fact((b - 1) as nat) <= b * fact((b - 1) as nat)) by (nonlinear_arith)
            requires b >= 1, fact((b - 1) as nat) >= 0;
    }
}

/// The factorials up to 20! fit in a `u64`; 20 is therefore the largest
/// point count the exact solver accepts.
pub proof fn lemma_fact_values()
    ensures
        fact(18) == 6402373705728000,
        fact(20) == 2432902008176640000,
{
    assert(fact(0) == 1);
    assert(fact(1) == 1);
    assert(fact(2) == 2);
    assert(fact(3) == 6);
    assert(fact(4) == 24);
    assert(fact(5) == 120);
    assert(fact(6) == 720);
    assert(fact(7) == 5040);
    assert(fact(8) == 40320);
    assert(fact(9) == 362880);
    assert(fact(10) == 3628800);
    assert(fact(11) == 39916800);
    assert(fact(12) == 479001600);
    assert(fact(13) == 6227020800);
    assert(fact(14) == 87178291200);
    assert(fact(15) == 1307674368000);
    assert(fact(16) == 20922789888000);
    assert(fact(17) == 355687428096000);
    assert(fact(18) == 6402373705728000);
    assert(fact(19) == 121645100408832000);
    assert(fact(20) == 2432902008176640000);
}

/// The multiset of a one-element sequence counts that element once.
proof fn lemma_singleton_count(u: i32, x: i32)
    ensures
        seq![u].to_multiset().count(x) == if x == u { 1int } else { 0 },
{
    assert(seq![u] =~= Seq::<i32>::empty().push(u));
    to_multiset_build(Seq::<i32>::empty(), u);
    to_multiset_contains(Seq::<i32>::empty(), x);
    assert(Seq::<i32>::empty().to_multiset().count(x) == 0);
}

/// How a `first + middle + last` sandwich counts each element.
proof fn lemma_sandwich_count(u: i32, mid: Seq<i32>, v: i32, x: i32)
    ensures
        (seq![u] + mid + seq![v]).to_multiset().count(x) == mid.to_multiset().count(x) + (if x
            == u {
            1int
        } else {
            0
        }) + (if x == v {
            1int
        } else {
            0
        }),
{
    lemma_multiset_commutative(seq![u] + mid, seq![v]);
    lemma_multiset_commutative(seq![u], mid);
    lemma_singleton_count(u, x);
    lemma_singleton_count(v, x);
}

/// How removing two indices (i < j) changes the element counts.
proof fn lemma_remove_two_count(points: Seq<i32>, i: int, j: int, x: i32)
    requires
        0 <= i < j < points.len(),
    ensures
        points.remove(j).remove(i).to_multiset().count(x) == points.to_multiset().count(x) - (
        if x == points[i] {
            1int
        } else {
            0
        }) - (if x == points[j] {
            1int
        } else {
            0
        }),
        points.to_multiset().count(points[i]) >= 1,
        points.to_multiset().count(points[j]) >= 1,
{
    to_multiset_remove(points, j);
    let pj = points.remove(j);
    assert(pj[i] == points[i]);
    to_multiset_remove(pj, i);
    to_multiset_contains(points, points[i]);
    to_multiset_contains(points, points[j]);
    to_multiset_contains(pj, pj[i]);
    assert(pj.contains(pj[i]));
    assert(points.contains(points[i]));
    assert(points.contains(points[j]));
}

/// A reordering of a duplicate-free sequence is duplicate-free.
pub proof fn lemma_perm_no_duplicates(s: Seq<i32>, b: Seq<i32>)
    requires
        is_perm_of(s, b),
        b.no_duplicates(),
    ensures
        s.no_duplicates(),
{
    b.lemma_multiset_has_no_duplicates();
    s.lemma_multiset_has_no_duplicates_conv();
}

/// The endpoints of a reordering of a duplicate-free `points` (len >= 2)
/// are distinct and sit at distinct, valid indices of `points`.
proof fn lemma_endpoint_indices(points: Seq<i32>, s: Seq<i32>)
    requires
        points.no_duplicates(),
        points.len() >= 2,
        is_perm_of(s, points),
    ensures
        s.len() == points.len(),
        s[0] != s[s.len() - 1],
        ({
            let a = points.index_of(s[0]);
            let b = points.index_of(s[s.len() - 1]);
            &&& 0 <= a < points.len()
            &&& 0 <= b < points.len()
            &&& a != b
            &&& points[a] == s[0]
            &&& points[b] == s[s.len() - 1]
        }),
{
    to_multiset_len(s);
    to_multiset_len(points);
    assert(s.len() == points.len());
    lemma_perm_no_duplicates(s, points);
    assert(s[0] != s[s.len() - 1]);
    to_multiset_contains(s, s[0]);
    to_multiset_contains(points, s[0]);
    to_multiset_contains(s, s[s.len() - 1]);
    to_multiset_contains(points, s[s.len() - 1]);
    assert(s.contains(s[0]) && s.contains(s[s.len() - 1]));
    assert(points.contains(s[0]) && points.contains(s[s.len() - 1]));
    let a = points.index_of(s[0]);
    let b = points.index_of(s[s.len() - 1]);
    assert(0 <= a < points.len() && points[a] == s[0]);
    assert(0 <= b < points.len() && points[b] == s[s.len() - 1]);
}

/// A sequence whose endpoints are the pair `{points[i], points[j]}` and
/// whose middle rearranges the rest is a rearrangement of `points`; and
/// conversely such a rearrangement's middle rearranges `points` less those
/// two indices.
proof fn lemma_sandwich_perm(points: Seq<i32>, i: int, j: int, u: i32, v: i32, mid: Seq<i32>)
    requires
        0 <= i < j < points.len(),
        u != v,
        (u == points[i] && v == points[j]) || (u == points[j] && v == points[i]),
    ensures
        is_perm_of(mid, points.remove(j).remove(i)) ==> is_perm_of(
            seq![u] + mid + seq![v],
            points,
        ),
        forall|s: Seq<i32>|
            is_perm_of(s, points) && s.len() >= 2 && s[0] == u && s.last() == v ==> is_perm_of(
                s.subrange(1, s.len() - 1),
                points.remove(j).remove(i),
            ),
{
    let rem = points.remove(j).remove(i);
    if is_perm_of(mid, rem) {
        assert forall|x: i32| (seq![u] + mid + seq![v]).to_multiset().count(x)
            == points.to_multiset().count(x) by {
            lemma_sandwich_count(u, mid, v, x);
            lemma_remove_two_count(points, i, j, x);
        }
        assert((seq![u] + mid + seq![v]).to_multiset() =~= points.to_multiset());
    }
    assert forall|s: Seq<i32>|
        is_perm_of(s, points) && s.len() >= 2 && s[0] == u && s.last()
            == v implies is_perm_of(s.subrange(1, s.len() - 1), rem) by {
        let m = s.subrange(1, s.len() - 1);
        assert(s =~= seq![u] + m + seq![v]);
        assert forall|x: i32| m.to_multiset().count(x) == rem.to_multiset().count(x) by {
            lemma_sandwich_count(u, m, v, x);
            lemma_remove_two_count(points, i, j, x);
            assert(s.to_multiset().count(x) == (seq![u] + m + seq![v]).to_multiset().count(x));
        }
        assert(m.to_multiset() =~= rem.to_multiset());
    }
}

/// Splitting a recursion step back together: if a route extends
/// `pre.push(rem[k])` and its middle past that point rearranges
/// `rem.remove(k)`, then past `pre` alone its middle rearranges `rem`.
proof fn lemma_extend_decomp(route: Seq<i32>, pre: Seq<i32>, x: i32, rem: Seq<i32>, k: int)
    requires
        0 <= k < rem.len(),
        x == rem[k],
        route.len() == pre.len() + rem.len() + 1,
        route.subrange(0, pre.len() as int + 1) == pre.push(x),
        is_perm_of(route.subrange(pre.len() as int + 1, route.len() - 1), rem.remove(k)),
    ensures
        route.subrange(0, pre.len() as int) == pre,
        is_perm_of(route.subrange(pre.len() as int, route.len() - 1), rem),
{
    let p = pre.len() as int;
    let mid2 = route.subrange(p + 1, route.len() - 1);
    let mid = route.subrange(p, route.len() - 1);
    assert forall|m: int| 0 <= m < p implies route[m] == pre[m] by {
        assert(route.subrange(0, p + 1)[m] == route[m]);
        assert(pre.push(x)[m] == pre[m]);
    }
    assert(route.subrange(0, p) =~= pre);
    assert(route[p] == route.subrange(0, p + 1)[p]);
    assert(route[p] == x);
    assert(mid =~= seq![x] + mid2);
    to_multiset_remove(rem, k);
    to_multiset_contains(rem, rem[k]);
    assert(rem.contains(rem[k]));
    assert forall|y: i32| mid.to_multiset().count(y) == rem.to_multiset().count(y) by {
        lemma_multiset_commutative(seq![x], mid2);
        lemma_singleton_count(x, y);
    }
    assert(mid.to_multiset() =~= rem.to_multiset());
}

/// Which reversal classes have been scored when the endpoint-pair loops
/// stand at outer index `j`, inner index `i`: those whose endpoints sit at
/// an index pair `{lo, hi}` with `hi < j`, or `hi == j` and `lo < i`.
spec fn covered(points: Seq<i32>, s: Seq<i32>, j: int, i: int) -> bool {
    let a = points.index_of(s[0]);
    let b = points.index_of(s[s.len() - 1]);
    let lo = if a <= b { a } else { b };
    let hi = if a <= b { b } else { a };
    hi < j || (hi == j && lo < i)
}

impl Cloud {
    /// Once every arrangement continuing `pre.push(rem[k])` is bounded
    /// below, so is every continuation of `pre` that picks `rem[k]` next.
    proof fn lemma_round_bound(self, pre: Seq<i32>, rem: Seq<i32>, k: int, last: i32, d: u128)
        requires
            0 <= k < rem.len(),
            forall|t: Seq<i32>|
                is_perm_of(t, rem.remove(k)) ==> self.route_dist(
                    pre.push(rem[k]) + t + seq![last],
                ) >= d,
        ensures
            forall|s: Seq<i32>|
                is_perm_of(s, rem) && s.len() > 0 && s[0] == rem[k] ==> self.route_dist(
                    pre + s + seq![last],
                ) >= d,
    {
        assert forall|s: Seq<i32>|
            is_perm_of(s, rem) && s.len() > 0 && s[0] == rem[k] implies self.route_dist(
            pre + s + seq![last],
        ) >= d by {
            to_multiset_remove(s, 0);
            to_multiset_remove(rem, k);
            assert(s.drop_first() =~= s.remove(0));
            assert(is_perm_of(s.drop_first(), rem.remove(k)));
            assert(self.route_dist(pre.push(rem[k]) + s.drop_first() + seq![last]) >= d);
            assert(pre + s + seq![last] =~= pre.push(rem[k]) + s.drop_first() + seq![last]);
        }
    }

    /// The least total length over every arrangement that keeps `prefix` in
    /// front, ends with `last`, and fills the middle with `rem` in some
    /// order; also that arrangement, and the number of arrangements scored
    /// (one per ordering of `rem`).
    fn permute_min(&self, prefix: Vec<i32>, rem: &Vec<i32>, last: i32) -> (r: (u128, Vec<i32>, u64))
        requires
            self.wf(),
            rem@.len() <= 18,
        ensures
            r.1@.len() == prefix@.len() + rem@.len() + 1,
            r.1@.subrange(0, prefix@.len() as int) == prefix@,
            r.1@.last() == last,
            is_perm_of(r.1@.subrange(prefix@.len() as int, r.1@.len() - 1), rem@),
            r.0 == self.route_dist(r.1@),
            forall|s: Seq<i32>|
                is_perm_of(s, rem@) ==> self.route_dist(prefix@ + s + seq![last]) >= r.0,
            r.2 == fact(rem@.len() as nat),
        decreases rem@.len(),
    {
        let ghost pre = prefix@;
        let len = rem.len();
        if len == 0 {
            let mut route = prefix;
            route.push(last);
            let d = self.route_distance(&route);
            proof {
                assert(route@.subrange(0, pre.len() as int) =~= pre);
                assert(route@.subrange(pre.len() as int, route@.len() - 1) =~= Seq::<
                    i32,
                >::empty());
                assert(rem@ =~= Seq::<i32>::empty());
                assert forall|s: Seq<i32>|
                    is_perm_of(s, rem@) implies self.route_dist(pre + s + seq![last])
                    >= d by {
                    to_multiset_len(s);
                    to_multiset_len(rem@);
                    assert(s.len() == 0);
                    assert(pre + s + seq![last] =~= route@);
                }
            }
            (d, route, 1)
        } else {
            let mut p2 = prefix.clone();
            p2.push(rem[0]);
            let mut r2 = rem.clone();
            r2.remove(0);
            let first = self.permute_min(p2, &r2, last);
            let mut best_d = first.0;
            let mut best_route = first.1;
            let mut evals = first.2;
            proof {
                lemma_extend_decomp(best_route@, pre, rem@[0], rem@, 0);
                self.lemma_round_bound(pre, rem@, 0, last, best_d);
                assert(1 * fact((len - 1) as nat) == fact((len - 1) as nat));
            }
            let mut k: usize = 1;
            while k < len
                invariant
                    self.wf(),
                    1 <= k <= len,
                    len == rem@.len(),
                    1 <= len <= 18,
                    pre == prefix@,
                    best_route@.len() == pre.len() + len + 1,
                    best_route@.subrange(0, pre.len() as int) == pre,
                    best_route@.last() == last,
                    is_perm_of(
                        best_route@.subrange(pre.len() as int, best_route@.len() - 1),
                        rem@,
                    ),
                    best_d == self.route_dist(best_route@),
                    forall|s: Seq<i32>|
                        is_perm_of(s, rem@) && s.len() > 0 && (exists|k2: int|
                            0 <= k2 < k && s[0] == rem@[k2]) ==> self.route_dist(
                            pre + s + seq![last],
                        ) >= best_d,
                    evals == k * fact((len - 1) as nat),
                decreases len - k,
            {
                let ghost entry_best = best_d;
                let mut p3 = prefix.clone();
                p3.push(rem[k]);
                let mut r3 = rem.clone();
                r3.remove(k);
                let step = self.permute_min(p3, &r3, last);
                let d = step.0;
                let route = step.1;
                let e = step.2;
                proof {
                    lemma_fact_mono(len as nat, 18);
                    lemma_fact_values();
                    lemma_fact_pos((len - 1) as nat);
                    assert(fact(len as nat) == len * fact((len - 1) as nat));
                    assert(evals + e == (k + 1) * fact((len - 1) as nat)) by (nonlinear_arith)
                        requires
                            evals == k * fact((len - 1) as nat),
                            e == fact((len - 1) as nat);
                    assert((k + 1) * fact((len - 1) as nat) <= len * fact((len - 1) as nat))
                        by (nonlinear_arith)
                        requires 0 <= k + 1 <= len, fact((len - 1) as nat) >= 0;
                }
                evals = evals + e;
                if d < best_d {
                    best_d = d;
                    best_route = route;
                    proof {
                        lemma_extend_decomp(best_route@, pre, rem@[k as int], rem@, k as int);
                    }
                }
                proof {
                    self.lemma_round_bound(pre, rem@, k as int, last, d);
                    assert forall|s: Seq<i32>|
                        is_perm_of(s, rem@) && s.len() > 0 && (exists|k2: int|
                            0 <= k2 < k + 1 && s[0] == rem@[k2]) implies self.route_dist(
                        pre + s + seq![last],
                    ) >= best_d by {
                        let k2 = choose|k2: int| 0 <= k2 < k + 1 && s[0] == rem@[k2];
                        if s[0] == rem@[k as int] {
                            assert(self.route_dist(pre + s + seq![last]) >= d);
                        } else {
                            assert(0 <= k2 < k && s[0] == rem@[k2]);
                            assert(self.route_dist(pre + s + seq![last]) >= entry_best);
                        }
                    }
                }
                k = k + 1;
            }
            proof {
                assert forall|s: Seq<i32>|
                    is_perm_of(s, rem@) implies self.route_dist(pre + s + seq![last])
                    >= best_d by {
                    to_multiset_len(s);
                    to_multiset_len(rem@);
                    assert(s.len() == len);
                    to_multiset_contains(rem@, s[0]);
                    to_multiset_contains(s, s[0]);
                    assert(s.contains(s[0]));
                    assert(rem@.contains(s[0]));
                }
            }
            (best_d, best_route, evals)
        }
    }

    /// The shortest open path visiting all of `points`, its length, and the
    /// number of scoring evaluations spent: exactly one per reversal class,
    /// half the orderings. Ties go to the arrangement met first: `points`
    /// itself when it is optimal, else one whose endpoint with the smaller
    /// id comes first (each reversal class is scored in that orientation
    /// only, so this pins the answer whenever one class is strictly best).
    pub fn brute_force(&self, points: &Vec<i32>) -> (r: ((u128, Vec<i32>), u64))
        requires
            self.wf(),
            points@.no_duplicates(),
            2 <= points@.len() <= 20,
        ensures
            is_perm_of(r.0.1@, points@),
            r.0.0 == self.route_dist(r.0.1@),
            forall|s: Seq<i32>| is_perm_of(s, points@) ==> self.route_dist(s) >= r.0.0,
            r.0.0 == self.route_dist(points@) ==> r.0.1@ == points@,
            r.0.0 < self.route_dist(points@) ==> r.0.1@[0] < r.0.1@[r.0.1@.len() - 1],
            2 * (r.1 as int) == fact(points@.len() as nat),
    {
        let n = points.len();
        let mut best_d = self.route_distance(points);
        let mut best_route = points.clone();
        let mut evals: u64 = 0;
        let ghost mut pairs: int = 0;
        proof {
            assert forall|s: Seq<i32>|
                is_perm_of(s, points@) && covered(points@, s, 1, 0) implies self.route_dist(s)
                >= best_d by {
                lemma_endpoint_indices(points@, s);
            }
        }
        let mut j: usize = 1;
        while j < n
            invariant
                self.wf(),
                points@.no_duplicates(),
                2 <= n <= 20,
                n == points@.len(),
                1 <= j <= n,
                is_perm_of(best_route@, points@),
                best_d == self.route_dist(best_route@),
                best_d <= self.route_dist(points@),
                best_route@ == points@ || (best_d < self.route_dist(points@)
                    && best_route@[0] < best_route@[best_route@.len() - 1]),
                0 <= pairs,
                2 * pairs == j * (j - 1),
                evals == pairs * fact((n - 2) as nat),
                forall|s: Seq<i32>|
                    is_perm_of(s, points@) && covered(points@, s, j as int, 0)
                        ==> self.route_dist(s) >= best_d,
            decreases n - j,
        {
            let mut i: usize = 0;
            while i < j
                invariant
                    self.wf(),
                    points@.no_duplicates(),
                    2 <= n <= 20,
                    n == points@.len(),
                    0 <= i <= j < n,
                    is_perm_of(best_route@, points@),
                    best_d == self.route_dist(best_route@),
                    best_d <= self.route_dist(points@),
                    best_route@ == points@ || (best_d < self.route_dist(points@)
                        && best_route@[0] < best_route@[best_route@.len() - 1]),
                    0 <= pairs,
                    2 * pairs == j * (j - 1) + 2 * i,
                    evals == pairs * fact((n - 2) as nat),
                    forall|s: Seq<i32>|
                        is_perm_of(s, points@) && covered(points@, s, j as int, i as int)
                            ==> self.route_dist(s) >= best_d,
                decreases j - i,
            {
                let ghost entry_best = best_d;
                let mut rem = points.clone();
                rem.remove(j);
                rem.remove(i);
                let pi = points[i];
                let pj = points[j];
                proof {
                    assert(points@[i as int] != points@[j as int]);
                }
                let first_pt: i32 = if pi < pj { pi } else { pj };
                let last_pt: i32 = if pi < pj { pj } else { pi };
                let mut pre: Vec<i32> = Vec::new();
                pre.push(first_pt);
                proof {
                    lemma_fact_mono((n - 2) as nat, 18);
                    lemma_fact_values();
                    lemma_fact_pos((n - 2) as nat);
                }
                let step = self.permute_min(pre, &rem, last_pt);
                let d = step.0;
                let route = step.1;
                let e = step.2;
                proof {
                    let f = fact((n - 2) as nat) as int;
                    assert(2 * pairs + 2 <= n * (n - 1)) by (nonlinear_arith)
                        requires 2 * pairs == j * (j - 1) + 2 * i, 0 <= i < j <= n - 1;
                    assert(2 * (evals + e) == (2 * pairs + 2) * f) by (nonlinear_arith)
                        requires evals == pairs * f, e == f;
                    assert((2 * pairs + 2) * f <= (n * (n - 1)) * f) by (nonlinear_arith)
                        requires 0 <= 2 * pairs + 2 <= n * (n - 1), f >= 1;
                    assert(fact(n as nat) == (n * (n - 1)) * f) by {
                        assert(fact(n as nat) == n * fact((n - 1) as nat));
                        assert(fact((n - 1) as nat) == (n - 1) * fact((n - 2) as nat));
                        assert(n * ((n - 1) * f) == (n * (n - 1)) * f) by (nonlinear_arith);
                    }
                    lemma_fact_mono(n as nat, 20);
                    assert(evals + e == (pairs + 1) * f) by (nonlinear_arith)
                        requires evals == pairs * f, e == f;
                }
                evals = evals + e;
                proof {
                    pairs = pairs + 1;
                }
                if d < best_d {
                    best_d = d;
                    best_route = route;
                    proof {
                        assert(route@[0] == route@.subrange(0, 1)[0]);
                        assert(route@[0] == first_pt && route@.last() == last_pt);
                        assert(first_pt < last_pt);
                        assert(route@ =~= seq![first_pt] + route@.subrange(
                            1,
                            route@.len() - 1,
                        ) + seq![last_pt]);
                        lemma_sandwich_perm(
                            points@,
                            i as int,
                            j as int,
                            first_pt,
                            last_pt,
                            route@.subrange(1, route@.len() - 1),
                        );
                    }
                }
                proof {
                    assert forall|s: Seq<i32>|
                        is_perm_of(s, points@) && covered(points@, s, j as int, i + 1)
                            implies self.route_dist(s) >= best_d by {
                        if covered(points@, s, j as int, i as int) {
                            assert(self.route_dist(s) >= entry_best);
                        } else {
                            self.lemma_new_pair_bound(
                                points@,
                                s,
                                i as int,
                                j as int,
                                first_pt,
                                last_pt,
                                rem@,
                                d,
                            );
                        }
                    }
                }
                i = i + 1;
            }
            proof {
                assert(j * (j - 1) + 2 * j == (j + 1) * ((j + 1) - 1)) by (nonlinear_arith);
                assert forall|s: Seq<i32>|
                    is_perm_of(s, points@) && covered(points@, s, j + 1, 0)
                        implies self.route_dist(s) >= best_d by {
                    lemma_endpoint_indices(points@, s);
                    assert(covered(points@, s, j as int, j as int));
                }
            }
            j = j + 1;
        }
        proof {
            let f = fact((n - 2) as nat) as int;
            assert(2 * evals == (2 * pairs) * f) by (nonlinear_arith)
                requires evals == pairs * f;
            assert(fact(n as nat) == (n * (n - 1)) * f) by {
                assert(fact(n as nat) == n * fact((n - 1) as nat));
                assert(fact((n - 1) as nat) == (n - 1) * fact((n - 2) as nat));
                assert(n * ((n - 1) * f) == (n * (n - 1)) * f) by (nonlinear_arith);
            }
            assert forall|s: Seq<i32>| is_perm_of(s, points@) implies self.route_dist(s)
                >= best_d by {
                lemma_endpoint_indices(points@, s);
                assert(covered(points@, s, n as int, 0));
            }
        }
        ((best_d, best_route), evals)
    }

    /// A reversal class whose endpoints sit at indices `{i, j}` scores at
    /// least the minimum found for that endpoint pair.
    proof fn lemma_new_pair_bound(
        self,
        points: Seq<i32>,
        s: Seq<i32>,
        i: int,
        j: int,
        first_pt: i32,
        last_pt: i32,
        rem: Seq<i32>,
        bound: u128,
    )
        requires
            points.no_duplicates(),
            points.len() >= 2,
            0 <= i < j < points.len(),
            is_perm_of(s, points),
            !covered(points, s, j, i),
            covered(points, s, j, i + 1),
            first_pt == if points[i] < points[j] { points[i] } else { points[j] },
            last_pt == if points[i] < points[j] { points[j] } else { points[i] },
            rem == points.remove(j).remove(i),
            forall|t: Seq<i32>|
                is_perm_of(t, rem) ==> self.route_dist(seq![first_pt] + t + seq![last_pt])
                    >= bound,
        ensures
            self.route_dist(s) >= bound,
    {
        lemma_endpoint_indices(points, s);
        let a = points.index_of(s[0]);
        let b = points.index_of(s[s.len() - 1]);
        // only the pair {i, j} is newly covered
        assert((a == i && b == j) || (a == j && b == i));
        assert(points[i] != points[j]);
        lemma_sandwich_perm(points, i, j, first_pt, last_pt, Seq::<i32>::empty());
        if s[0] == first_pt {
            assert(s.last() == last_pt);
            let mid = s.subrange(1, s.len() - 1);
            assert(is_perm_of(mid, rem));
            assert(s =~= seq![first_pt] + mid + seq![last_pt]);
        } else {
            assert(s[0] == last_pt && s.last() == first_pt);
            let t = s.reverse();
            assert(t.len() == s.len());
            assert(t[0] == first_pt && t.last() == last_pt);
            s.lemma_reverse_to_multiset();
            assert(is_perm_of(t, points));
            let mid = t.subrange(1, t.len() - 1);
            assert(is_perm_of(mid, rem));
            assert(t =~= seq![first_pt] + mid + seq![last_pt]);
            self.lemma_route_dist_reverse(s);
            assert(self.route_dist(t) >= bound);
        }
    }
}

} // verus!
