//! One independent group of points ("cloud") with its dense pairwise
//! distance cache.
//!
//! Points are added one at a time; on every insertion the distance to each
//! point already present is computed and stored both ways, so the cache is
//! always fully dense over the current point set.

use vstd::prelude::*;

use crate::geometry::{dist, lemma_distance_fits, lemma_distance_symmetric, Position};
use crate::label::{label_of, parse_label, LabelError, LabelKey};

verus! {

/// What the cloud remembers of one point, as plain mathematical values.
#[verifier::ext_equal]
pub struct PlaceModel {
    pub id: i32,
    pub name: Seq<char>,
    pub position: Position,
    pub label: Result<LabelKey, LabelError>,
}

/// One labeled point of a cloud.
#[derive(Debug)]
pub struct Place {
    pub id: i32,
    pub name: String,
    pub position: Position,
    /// The ordinal sort key of `name`, or the error its parse failed with.
    pub label: Result<LabelKey, LabelError>,
}

impl Place {
    pub open spec fn model(self) -> PlaceModel {
        PlaceModel { id: self.id, name: self.name@, position: self.position, label: self.label }
    }

    pub open spec fn wf(self) -> bool {
        &&& self.position.wf()
        &&& self.label == label_of(self.name@)
    }

    /// Build a point from its id, display name and position. A name that
    /// fails to parse is kept, with the error stored in place of the key.
    pub fn new(id: &i32, name: &String, position: &Position) -> (r: Place)
        requires
            position.wf(),
        ensures
            r.model() == (PlaceModel {
                id: *id,
                name: name@,
                position: *position,
                label: label_of(name@),
            }),
            r.wf(),
    {
        Place { id: *id, name: name.clone(), position: *position, label: parse_label(name.as_str()) }
    }
}

/// A group of labeled points and the symmetric table of their pairwise
/// distances, kept dense over the current point set.
pub struct Cloud {
    places: Vec<Place>,
    distances: Vec<Vec<u64>>,
}

impl Cloud {
    /// The points of the cloud, in insertion order.
    pub closed spec fn model(self) -> Seq<PlaceModel> {
        self.places@.map_values(|p: Place| p.model())
    }

    /// The ids of the points, in insertion order.
    pub open spec fn ids(self) -> Seq<i32> {
        self.model().map_values(|m: PlaceModel| m.id)
    }

    pub open spec fn len(self) -> int {
        self.model().len() as int
    }

    pub open spec fn has(self, id: i32) -> bool {
        self.ids().contains(id)
    }

    /// The index of the point with the given id (meaningful when `has(id)`).
    pub open spec fn idx_of(self, id: i32) -> int {
        self.ids().index_of(id)
    }

    pub open spec fn place_of(self, id: i32) -> PlaceModel {
        self.model()[self.idx_of(id)]
    }

    pub open spec fn pos_of(self, id: i32) -> Position {
        self.place_of(id).position
    }

    /// The distance the cache answers for a pair of ids: the rounded
    /// Euclidean distance when both ids are present and distinct, 0
    /// otherwise (no self-pair is ever cached).
    pub open spec fn pair_dist(self, a: i32, b: i32) -> int {
        if self.has(a) && self.has(b) && a != b {
            dist(self.pos_of(a), self.pos_of(b))
        } else {
            0
        }
    }

    /// The total length of an open path: the sum of the distances of its
    /// consecutive pairs, a missing pair counting 0.
    pub open spec fn route_dist(self, s: Seq<i32>) -> int
        decreases s.len(),
    {
        if s.len() < 2 {
            0
        } else {
            self.route_dist(s.drop_last()) + self.pair_dist(s[s.len() - 2], s[s.len() - 1])
        }
    }

    /// Every id occurs once; every position is in coordinate range; every
    /// stored label is the parse of the stored name.
    pub open spec fn model_ok(self) -> bool {
        &&& self.ids().no_duplicates()
        &&& forall|i: int|
            0 <= i < self.len() ==> (#[trigger] self.model()[i]).position.wf()
        &&& forall|i: int|
            0 <= i < self.len() ==> (#[trigger] self.model()[i]).label == label_of(
                self.model()[i].name,
            )
    }

    /// The distance table is dense and holds exactly the pairwise distances
    /// of the current point set.
    pub closed spec fn cache_ok(self) -> bool {
        &&& self.distances@.len() == self.places@.len()
        &&& forall|i: int|
            0 <= i < self.places@.len() ==> (#[trigger] self.distances@[i])@.len()
                == self.places@.len()
        &&& forall|i: int, j: int|
            0 <= i < self.places@.len() && 0 <= j < self.places@.len() ==> (
            #[trigger] self.distances@[i]@[j]) == dist(
                self.places@[i].position,
                self.places@[j].position,
            )
    }

    pub open spec fn wf(self) -> bool {
        self.model_ok() && self.cache_ok()
    }

    /// An empty cloud.
    pub fn new() -> (r: Cloud)
        ensures
            r.wf(),
            r.model() == Seq::<PlaceModel>::empty(),
    {
        let r = Cloud { places: Vec::new(), distances: Vec::new() };
        proof {
            assert(r.model() =~= Seq::<PlaceModel>::empty());
        }
        r
    }

    /// The display name of the point with the given id, if present.
    pub fn get_name(&self, id: &i32) -> (r: Option<String>)
        requires
            self.wf(),
        ensures
            match r {
                Some(name) => self.has(*id) && name@ == self.place_of(*id).name,
                None => !self.has(*id),
            },
    {
        let n = self.places.len();
        let mut k: usize = 0;
        while k < n
            invariant
                self.wf(),
                k <= n,
                n == self.places@.len(),
                forall|m: int| 0 <= m < k ==> (#[trigger] self.model()[m]).id != *id,
            decreases n - k,
        {
            if self.places[k].id == *id {
                proof {
                    assert(self.ids()[k as int] == *id);
                    lemma_choose_idx_unique(self.ids(), *id, k as int);
                    assert(self.model()[k as int].name == self.places@[k as int].name@);
                }
                return Some(self.places[k].name.clone());
            }
            k = k + 1;
        }
        proof {
            assert(forall|m: int| 0 <= m < self.ids().len() ==> self.ids()[m] != *id);
        }
        None
    }

    /// Find the index of an id in the point list, if present.
    pub(crate) fn find(&self, id: &i32) -> (r: Option<usize>)
        ensures
            match r {
                Some(k) => self.has(*id) && 0 <= k < self.len() && self.model()[k as int].id
                    == *id,
                None => !self.has(*id),
            },
    {
        let n = self.places.len();
        let mut k: usize = 0;
        while k < n
            invariant
                k <= n,
                n == self.places@.len(),
                forall|m: int| 0 <= m < k ==> (#[trigger] self.model()[m]).id != *id,
            decreases n - k,
        {
            if self.places[k].id == *id {
                proof {
                    assert(self.ids()[k as int] == *id);
                }
                return Some(k);
            }
            k = k + 1;
        }
        proof {
            assert(forall|m: int| 0 <= m < self.ids().len() ==> self.ids()[m] != *id);
        }
        None
    }

    /// The cached distance between two ids: present exactly when both
    /// points are and the ids differ (the pair is then always in the cache,
    /// by density; distances are computed only between distinct points, so
    /// a self-pair answers `None`).
    pub fn distance_between(&self, a: &i32, b: &i32) -> (r: Option<u64>)
        requires
            self.wf(),
        ensures
            match r {
                Some(d) => self.has(*a) && self.has(*b) && *a != *b && d == dist(
                    self.pos_of(*a),
                    self.pos_of(*b),
                ) && d == self.pair_dist(*a, *b),
                None => !(self.has(*a) && self.has(*b) && *a != *b),
            },
    {
        if *a == *b {
            return None;
        }
        let ka = match self.find(a) {
            Some(k) => k,
            None => { return None; },
        };
        let kb = match self.find(b) {
            Some(k) => k,
            None => { return None; },
        };
        let d = self.distances[ka][kb];
        proof {
            lemma_choose_idx_unique(self.ids(), *a, ka as int);
            lemma_choose_idx_unique(self.ids(), *b, kb as int);
            assert(self.model()[ka as int].position == self.places@[ka as int].position);
            assert(self.model()[kb as int].position == self.places@[kb as int].position);
        }
        Some(d)
    }

    /// Insert a point, or replace the point already carrying this id
    /// (returning whether a replacement happened); either way the distance
    /// table is extended or refreshed so it stays dense.
    pub fn add(&mut self, id: &i32, name: &String, position: &Position) -> (replaced: bool)
        requires
            old(self).wf(),
            position.wf(),
        ensures
            final(self).wf(),
            replaced == old(self).has(*id),
            ({
                let m = PlaceModel {
                    id: *id,
                    name: name@,
                    position: *position,
                    label: label_of(name@),
                };
                if old(self).has(*id) {
                    final(self).model() == old(self).model().update(old(self).idx_of(*id), m)
                } else {
                    final(self).model() == old(self).model().push(m)
                }
            }),
    {
        let p = Place::new(id, name, position);
        let n = self.places.len();
        match self.find(id) {
            Some(k) => {
                proof {
                    lemma_choose_idx_unique(self.ids(), *id, k as int);
                }
                let ghost p_snap = p;
                let new_pos: Position = p.position;
                self.places[k] = p;
                proof {
                    assert(self.model() =~= old(self).model().update(
                        k as int,
                        PlaceModel {
                            id: *id,
                            name: name@,
                            position: *position,
                            label: label_of(name@),
                        },
                    ));
                    assert(self.ids() =~= old(self).ids().update(k as int, *id));
                    assert(self.ids() =~= old(self).ids());
                }
                let mut j: usize = 0;
                while j < n
                    invariant
                        j <= n,
                        n == self.places@.len(),
                        n == old(self).places@.len(),
                        k < n,
                        old(self).wf(),
                        p_snap.wf(),
                        new_pos == p_snap.position,
                        self.places@ == old(self).places@.update(k as int, p_snap),
                        self.distances@.len() == n,
                        forall|i: int|
                            0 <= i < n ==> (#[trigger] self.distances@[i])@.len() == n,
                        forall|x: int, y: int|
                            0 <= x < n && 0 <= y < n && !(x == k && y < j) && !(y == k && x < j)
                                ==> (#[trigger] self.distances@[x]@[y]) == dist(
                                old(self).places@[x].position,
                                old(self).places@[y].position,
                            ),
                        forall|y: int|
                            0 <= y < j ==> (#[trigger] self.distances@[k as int]@[y]) == dist(
                                new_pos,
                                self.places@[y].position,
                            ),
                        forall|x: int|
                            0 <= x < j ==> (#[trigger] self.distances@[x]@[k as int]) == dist(
                                self.places@[x].position,
                                new_pos,
                            ),
                    decreases n - j,
                {
                    let pos_j = self.places[j].position;
                    proof {
                        if j != k {
                            assert(old(self).model()[j as int].position.wf());
                            assert(old(self).model()[j as int].position == old(
                                self,
                            ).places@[j as int].position);
                        }
                        assert(pos_j.wf());
                    }
                    let d = Position::distance(&new_pos, &pos_j);
                    self.distances[k][j] = d;
                    proof {
                        lemma_distance_symmetric(new_pos, pos_j);
                    }
                    self.distances[j][k] = d;
                    j = j + 1;
                }
                true
            },
            None => {
                let mut j: usize = 0;
                while j < n
                    invariant
                        j <= n,
                        n == self.places@.len(),
                        old(self).wf(),
                        p.wf(),
                        self.places@ == old(self).places@,
                        self.distances@.len() == n,
                        forall|i: int|
                            0 <= i < j ==> (#[trigger] self.distances@[i])@.len() == n + 1,
                        forall|i: int|
                            j <= i < n ==> (#[trigger] self.distances@[i])@.len() == n,
                        forall|x: int, y: int|
                            0 <= x < n && 0 <= y < n ==> (#[trigger] self.distances@[x]@[y])
                                == dist(
                                old(self).places@[x].position,
                                old(self).places@[y].position,
                            ),
                        forall|x: int|
                            0 <= x < j ==> (#[trigger] self.distances@[x]@[n as int]) == dist(
                                old(self).places@[x].position,
                                p.position,
                            ),
                    decreases n - j,
                {
                    let pos_j = self.places[j].position;
                    proof {
                        assert(old(self).model()[j as int].position.wf());
                        assert(old(self).model()[j as int].position == old(
                            self,
                        ).places@[j as int].position);
                        assert(pos_j.wf());
                    }
                    let d = Position::distance(&pos_j, &p.position);
                    self.distances[j].push(d);
                    j = j + 1;
                }
                let mut row: Vec<u64> = Vec::new();
                let mut m: usize = 0;
                while m < n
                    invariant
                        m <= n,
                        n == self.places@.len(),
                        old(self).wf(),
                        p.wf(),
                        self.places@ == old(self).places@,
                        row@.len() == m,
                        forall|y: int|
                            0 <= y < m ==> (#[trigger] row@[y]) == dist(
                                p.position,
                                old(self).places@[y].position,
                            ),
                    decreases n - m,
                {
                    let pos_m = self.places[m].position;
                    proof {
                        assert(old(self).model()[m as int].position.wf());
                        assert(old(self).model()[m as int].position == old(
                            self,
                        ).places@[m as int].position);
                        assert(pos_m.wf());
                        lemma_distance_symmetric(p.position, pos_m);
                    }
                    let d = Position::distance(&p.position, &pos_m);
                    row.push(d);
                    m = m + 1;
                }
                let d_self = Position::distance(&p.position, &p.position);
                row.push(d_self);
                self.places.push(p);
                self.distances.push(row);
                proof {
                    assert(self.model() =~= old(self).model().push(
                        PlaceModel {
                            id: *id,
                            name: name@,
                            position: *position,
                            label: label_of(name@),
                        },
                    ));
                    assert(self.ids() =~= old(self).ids().push(*id));
                    assert(forall|m2: int|
                        0 <= m2 < old(self).ids().len() ==> old(self).ids()[m2] != *id);
                    lemma_no_dup_push(old(self).ids(), *id);
                }
                false
            },
        }
    }

    /// The number of points in the cloud.
    pub fn places_len(&self) -> (r: usize)
        ensures
            r == self.len(),
    {
        self.places.len()
    }

    /// The stored label parse of the point at position `m`.
    pub fn place_label(&self, m: usize) -> (r: Result<LabelKey, LabelError>)
        requires
            m < self.len(),
        ensures
            r == self.model()[m as int].label,
    {
        self.places[m].label
    }

    /// The id of the point at position `m`.
    pub fn place_id(&self, m: usize) -> (r: i32)
        requires
            m < self.len(),
        ensures
            r == self.model()[m as int].id,
    {
        self.places[m].id
    }

    /// Under distinct ids, the point at position `m` is the one its id finds.
    pub proof fn lemma_found_index(self, id: i32, k: int)
        requires
            self.wf(),
            0 <= k < self.len(),
            self.model()[k].id == id,
        ensures
            self.has(id),
            self.idx_of(id) == k,
            self.place_of(id) == self.model()[k],
    {
        assert(self.ids()[k] == id);
        lemma_choose_idx_unique(self.ids(), id, k);
    }

    /// The total length of the open path visiting `route` in order, missing
    /// pairs counting 0.
    pub fn route_distance(&self, route: &Vec<i32>) -> (r: u128)
        requires
            self.wf(),
        ensures
            r == self.route_dist(route@),
    {
        let n = route.len();
        if n < 2 {
            return 0;
        }
        let mut total: u128 = 0;
        let mut i: usize = 1;
        proof {
            assert(route@.take(1).len() < 2);
        }
        while i < n
            invariant
                1 <= i <= n,
                n == route@.len(),
                self.wf(),
                total == self.route_dist(route@.take(i as int)),
                total <= (i - 1) * (u64::MAX as int),
            decreases n - i,
        {
            let d: u64 = match self.distance_between(&route[i - 1], &route[i]) {
                Some(d) => d,
                None => 0,
            };
            proof {
                assert(d == self.pair_dist(route@[i - 1], route@[i as int]));
                let t = route@.take(i + 1);
                assert(t.drop_last() =~= route@.take(i as int));
                assert(t[t.len() - 2] == route@[i - 1] && t[t.len() - 1] == route@[i as int]);
                self.lemma_pair_dist_bounds(route@[i - 1], route@[i as int]);
                assert((i - 1) * (u64::MAX as int) + u64::MAX <= i * (u64::MAX as int))
                    by (nonlinear_arith)
                    requires 1 <= i;
            }
            total = total + (d as u128);
            i = i + 1;
        }
        proof {
            assert(route@.take(n as int) =~= route@);
        }
        total
    }

    /// A cached pair distance is nonnegative and fits in a `u64`.
    pub proof fn lemma_pair_dist_bounds(self, a: i32, b: i32)
        requires
            self.wf(),
        ensures
            0 <= self.pair_dist(a, b) <= u64::MAX,
    {
        if self.has(a) && self.has(b) && a != b {
            lemma_choose_valid(self.ids(), a);
            lemma_choose_valid(self.ids(), b);
            lemma_distance_fits(self.pos_of(a), self.pos_of(b));
        }
    }

    /// A route's length is nonnegative and at most one `u64` per leg.
    pub proof fn lemma_route_dist_bounds(self, s: Seq<i32>)
        requires
            self.wf(),
        ensures
            0 <= self.route_dist(s),
            s.len() >= 1 ==> self.route_dist(s) <= (s.len() - 1) * (u64::MAX as int),
        decreases s.len(),
    {
        if s.len() < 2 {
        } else {
            self.lemma_route_dist_bounds(s.drop_last());
            self.lemma_pair_dist_bounds(s[s.len() - 2], s[s.len() - 1]);
            assert((s.len() - 2) * (u64::MAX as int) + u64::MAX == (s.len() - 1) * (
            u64::MAX as int)) by (nonlinear_arith);
        }
    }

    /// The cache is symmetric in its two ids.
    pub proof fn lemma_pair_dist_symmetric(self, a: i32, b: i32)
        ensures
            self.pair_dist(a, b) == self.pair_dist(b, a),
    {
        if self.has(a) && self.has(b) && a != b {
            lemma_distance_symmetric(self.pos_of(a), self.pos_of(b));
        }
    }

    /// Splitting an open path splits its length around the connecting leg.
    pub proof fn lemma_route_dist_concat(self, a: Seq<i32>, b: Seq<i32>)
        requires
            a.len() >= 1,
            b.len() >= 1,
        ensures
            self.route_dist(a + b) == self.route_dist(a) + self.pair_dist(a.last(), b.first())
                + self.route_dist(b),
        decreases b.len(),
    {
        if b.len() == 1 {
            let s = a + b;
            assert(s.drop_last() =~= a);
            assert(s[s.len() - 2] == a.last() && s[s.len() - 1] == b.first());
        } else {
            let s = a + b;
            assert(s.drop_last() =~= a + b.drop_last());
            self.lemma_route_dist_concat(a, b.drop_last());
            assert(b.drop_last().first() == b.first());
            assert(s[s.len() - 2] == b[b.len() - 2] && s[s.len() - 1] == b[b.len() - 1]);
            assert(b.drop_last().last() == b[b.len() - 2]);
        }
    }

    /// A route and its exact reverse have the same length.
    pub proof fn lemma_route_dist_reverse(self, s: Seq<i32>)
        ensures
            self.route_dist(s.reverse()) == self.route_dist(s),
        decreases s.len(),
    {
        if s.len() < 2 {
        } else {
            let t = s.drop_last();
            self.lemma_route_dist_reverse(t);
            assert(s.reverse() =~= seq![s.last()] + t.reverse());
            assert(t.reverse().first() == t.last());
            self.lemma_route_dist_concat(seq![s.last()], t.reverse());
            self.lemma_pair_dist_symmetric(s.last(), t.last());
            assert(s[s.len() - 2] == t.last());
        }
    }
}

/// `index_of` answers a valid index for any contained element.
proof fn lemma_choose_valid(s: Seq<i32>, x: i32)
    requires
        s.contains(x),
    ensures
        0 <= s.index_of(x) < s.len(),
        s[s.index_of(x)] == x,
{
    let i = choose|i: int| 0 <= i < s.len() && s[i] == x;
    assert(s[i] == x);
}

/// In a duplicate-free sequence, any index holding `x` is `index_of(x)`.
proof fn lemma_choose_idx_unique(s: Seq<i32>, x: i32, k: int)
    requires
        s.no_duplicates(),
        0 <= k < s.len(),
        s[k] == x,
    ensures
        s.index_of(x) == k,
{
    assert(s.contains(x));
    lemma_choose_valid(s, x);
}

/// Appending a fresh element keeps a sequence duplicate-free.
proof fn lemma_no_dup_push(s: Seq<i32>, x: i32)
    requires
        s.no_duplicates(),
        forall|m: int| 0 <= m < s.len() ==> s[m] != x,
    ensures
        s.push(x).no_duplicates(),
{
}

} // verus!
