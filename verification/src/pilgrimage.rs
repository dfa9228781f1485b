//! Sacred routes: named pilgrimages whose mandatory waypoints a journey
//! must visit in order.

use vstd::prelude::*;
use crate::roomset::RoomSet;
use crate::text::{owned, str_eq};
use crate::waypoint::{rooms_of, Waypoint, WaypointView};

verus! {

/// `f` places each element of `a` at an index of `b` holding it, the indices
/// strictly increasing.
pub open spec fn is_embedding(a: Seq<Seq<char>>, b: Seq<Seq<char>>, f: Seq<int>) -> bool {
    &&& f.len() == a.len()
    &&& forall|k: int| 0 <= k < f.len() ==> 0 <= #[trigger] f[k] < b.len() && b[f[k]] == a[k]
    &&& forall|k: int, l: int| 0 <= k < l < f.len() ==> #[trigger] f[k] < #[trigger] f[l]
}

/// `a` occurs in `b` in order, possibly with other elements between.
pub open spec fn is_subsequence(a: Seq<Seq<char>>, b: Seq<Seq<char>>) -> bool {
    exists|f: Seq<int>| is_embedding(a, b, f)
}

/// How many leading elements of `a` a left-to-right scan of `b` matches,
/// advancing whenever the next wanted element comes by.
pub open spec fn greedy_matched(a: Seq<Seq<char>>, b: Seq<Seq<char>>) -> nat
    decreases b.len(),
{
    if b.len() == 0 {
        0
    } else {
        let m = greedy_matched(a, b.drop_last());
        if m < a.len() && b.last() == a[m as int] {
            m + 1
        } else {
            m
        }
    }
}

proof fn lemma_greedy_bound(a: Seq<Seq<char>>, b: Seq<Seq<char>>)
    ensures
        greedy_matched(a, b) <= a.len(),
    decreases b.len(),
{
    if b.len() > 0 {
        lemma_greedy_bound(a, b.drop_last());
    }
}

/// The prefix of `a` that the scan matched does occur in `b`.
proof fn lemma_greedy_sound(a: Seq<Seq<char>>, b: Seq<Seq<char>>) -> (f: Seq<int>)
    ensures
        is_embedding(a.take(greedy_matched(a, b) as int), b, f),
    decreases b.len(),
{
    lemma_greedy_bound(a, b);
    if b.len() == 0 {
        let f = Seq::<int>::empty();
        assert(a.take(0) =~= Seq::<Seq<char>>::empty());
        f
    } else {
        let b1 = b.drop_last();
        let m = greedy_matched(a, b1);
        let f1 = lemma_greedy_sound(a, b1);
        lemma_greedy_bound(a, b1);
        if m < a.len() && b.last() == a[m as int] {
            let f = f1.push(b.len() - 1);
            assert forall|k: int| 0 <= k < f.len() implies 0 <= #[trigger] f[k] < b.len() && b[f[k]]
                == a.take(m + 1 as int)[k] by {
                if k < f1.len() {
                    assert(b1[f1[k]] == a.take(m as int)[k]);
                }
            }
            f
        } else {
            assert forall|k: int| 0 <= k < f1.len() implies 0 <= #[trigger] f1[k] < b.len() && b[f1[k]]
                == a.take(m as int)[k] by {
                assert(b1[f1[k]] == a.take(m as int)[k]);
            }
            f1
        }
    }
}

/// Whenever the first `k` elements of `a` occur in `b`, the scan matches at
/// least `k` of them.
proof fn lemma_greedy_complete(a: Seq<Seq<char>>, b: Seq<Seq<char>>, k: int, f: Seq<int>)
    requires
        0 <= k <= a.len(),
        is_embedding(a.take(k), b, f),
    ensures
        k <= greedy_matched(a, b),
    decreases b.len(),
{
    if k == 0 {
    } else if b.len() == 0 {
        assert(0 <= f[0] < b.len());
    } else {
        let b1 = b.drop_last();
        let last = f[k - 1];
        if last < b.len() - 1 {
            assert forall|j: int| 0 <= j < f.len() implies 0 <= #[trigger] f[j] < b1.len() && b1[f[j]]
                == a.take(k)[j] by {
                if j < k - 1 {
                    assert(f[j] < f[k - 1]);
                }
            }
            lemma_greedy_complete(a, b1, k, f);
        } else {
            let f1 = f.take(k - 1);
            assert forall|j: int| 0 <= j < f1.len() implies 0 <= #[trigger] f1[j] < b1.len() && b1[f1[j]]
                == a.take(k - 1)[j] by {
                assert(f[j] < f[k - 1]);
                assert(b[f[j]] == a.take(k)[j]);
            }
            assert forall|j: int, l: int| 0 <= j < l < f1.len() implies #[trigger] f1[j]
                < #[trigger] f1[l] by {
                assert(f[j] < f[l]);
            }
            lemma_greedy_complete(a, b1, k - 1, f1);
            assert(b[f[k - 1]] == a.take(k)[k - 1]);
        }
    }
}

/// The scan matches all of `a` exactly when `a` occurs in order in `b`.
pub proof fn lemma_greedy_iff_subsequence(a: Seq<Seq<char>>, b: Seq<Seq<char>>)
    ensures
        (greedy_matched(a, b) == a.len()) == is_subsequence(a, b),
{
    lemma_greedy_bound(a, b);
    if greedy_matched(a, b) == a.len() {
        let f = lemma_greedy_sound(a, b);
        assert(a.take(a.len() as int) =~= a);
        assert(is_embedding(a, b, f));
    }
    if is_subsequence(a, b) {
        let f = choose|f: Seq<int>| is_embedding(a, b, f);
        assert(a.take(a.len() as int) =~= a);
        lemma_greedy_complete(a, b, a.len() as int, f);
    }
}

/// Keeping some elements of a sequence, in order, gives a subsequence of it.
proof fn lemma_filter_is_subsequence(s: Seq<Seq<char>>, pred: spec_fn(Seq<char>) -> bool) -> (f: Seq<int>)
    ensures
        is_embedding(s.filter(pred), s, f),
    decreases s.len(),
{
    reveal_with_fuel(Seq::<_>::filter, 1);
    if s.len() == 0 {
        Seq::<int>::empty()
    } else {
        let s1 = s.drop_last();
        let f1 = lemma_filter_is_subsequence(s1, pred);
        if pred(s.last()) {
            let f = f1.push(s.len() - 1);
            assert forall|k: int| 0 <= k < f.len() implies 0 <= #[trigger] f[k] < s.len() && s[f[k]]
                == s.filter(pred)[k] by {
                if k < f1.len() {
                    assert(s1[f1[k]] == s1.filter(pred)[k]);
                }
            }
            f
        } else {
            assert forall|k: int| 0 <= k < f1.len() implies 0 <= #[trigger] f1[k] < s.len() && s[f1[k]]
                == s.filter(pred)[k] by {
                assert(s1[f1[k]] == s1.filter(pred)[k]);
            }
            f1
        }
    }
}

/// What a pilgrimage holds: its name, its waypoints in order and the set of
/// rooms that must be visited.
pub struct PilgrimageView {
    pub name: Seq<char>,
    pub stops: Seq<WaypointView>,
    pub mandatory: Set<Seq<char>>,
}

impl PilgrimageView {
    /// The rooms of the route, in order.
    pub open spec fn route(self) -> Seq<Seq<char>> {
        rooms_of(self.stops)
    }

    /// The waypoint rooms that are mandatory, in route order.
    pub open spec fn mandatory_order(self) -> Seq<Seq<char>> {
        self.route().filter(|r: Seq<char>| self.mandatory.contains(r))
    }

    /// Every mandatory room is the room of some waypoint.
    pub open spec fn wf(self) -> bool {
        forall|r: Seq<char>| self.mandatory.contains(r) ==> self.route().contains(r)
    }

    /// A visited list satisfies the pilgrimage when it passes the mandatory
    /// waypoints in route order; other rooms may come between them.
    pub open spec fn satisfied_by(self, visited: Seq<Seq<char>>) -> bool {
        is_subsequence(self.mandatory_order(), visited)
    }
}

/// A sacred route — a named, well-known pilgrimage with mandatory waypoints.
#[derive(Clone, Debug)]
pub struct Pilgrimage {
    pub name: String,
    waypoints: Vec<Waypoint>,
    /// Rooms that MUST be visited (subset of waypoints).
    mandatory: RoomSet,
}

impl View for Pilgrimage {
    type V = PilgrimageView;

    closed spec fn view(&self) -> PilgrimageView {
        PilgrimageView {
            name: self.name@,
            stops: self.waypoints@.map_values(|w: Waypoint| w@),
            mandatory: self.mandatory@,
        }
    }
}

impl Pilgrimage {
    pub fn new(name: &str) -> (p: Self)
        ensures
            p@ == (PilgrimageView { name: name@, stops: Seq::empty(), mandatory: Set::empty() }),
            p@.wf(),
    {
        let p = Pilgrimage { name: owned(name), waypoints: Vec::new(), mandatory: RoomSet::new() };
        assert(p@.stops =~= Seq::<WaypointView>::empty());
        assert(p@.mandatory =~= Set::<Seq<char>>::empty());
        p
    }

    /// Add a waypoint, marking its room mandatory if asked.
    pub fn add_waypoint(&mut self, room: &str, mandatory: bool)
        ensures
            final(self)@ == (PilgrimageView {
                name: old(self)@.name,
                stops: old(self)@.stops.push(
                    WaypointView { room: room@, order: old(self)@.stops.len() as usize, label: None },
                ),
                mandatory: if mandatory {
                    old(self)@.mandatory.insert(room@)
                } else {
                    old(self)@.mandatory
                },
            }),
            old(self)@.wf() ==> final(self)@.wf(),
    {
        let order = self.waypoints.len();
        if mandatory {
            self.mandatory.insert(room);
        }
        self.waypoints.push(Waypoint::new(room, order));
        assert(self@.stops =~= old(self)@.stops.push(
            WaypointView { room: room@, order: old(self)@.stops.len() as usize, label: None },
        ));
        proof {
            assert(self@.route() =~= old(self)@.route().push(room@));
            assert(self@.route()[old(self)@.stops.len() as int] == room@);
            if old(self)@.wf() {
                assert forall|r: Seq<char>| self@.mandatory.contains(r) implies self@.route().contains(r) by {
                    if r != room@ {
                        assert(old(self)@.route().contains(r));
                        let k = choose|k: int| 0 <= k < old(self)@.route().len() && old(self)@.route()[k] == r;
                        assert(self@.route()[k] == r);
                    }
                }
            }
        }
    }

    /// The rooms of the mandatory waypoints, in route order.
    fn mandatory_order(&self) -> (r: Vec<&str>)
        ensures
            r@.map_values(|s: &str| s@) == self@.mandatory_order(),
    {
        let mut r: Vec<&str> = Vec::new();
        let n = self.waypoints.len();
        let ghost route = self@.route();
        let ghost pred = |x: Seq<char>| self@.mandatory.contains(x);
        for i in 0..n
            invariant
                n == self.waypoints@.len(),
                route == self@.route(),
                pred == (|x: Seq<char>| self@.mandatory.contains(x)),
                r@.map_values(|s: &str| s@) == route.take(i as int).filter(pred),
        {
            let room = self.waypoints[i].room.as_str();
            proof {
                reveal_with_fuel(Seq::<_>::filter, 1);
                assert(route.take(i + 1).drop_last() =~= route.take(i as int));
                assert(route.take(i + 1).last() == room@);
            }
            if self.mandatory.contains(room) {
                r.push(room);
                assert(r@.map_values(|s: &str| s@) =~= route.take(i as int).filter(pred).push(room@));
            }
        }
        assert(route.take(n as int) =~= route);
        r
    }

    /// Check if a given route (list of rooms visited) satisfies this pilgrimage:
    /// it visits all mandatory waypoints in order.
    pub fn is_satisfied_by(&self, visited: &[&str]) -> (r: bool)
        ensures
            r == self@.satisfied_by(visited@.map_values(|s: &str| s@)),
    {
        let mandatory_order = self.mandatory_order();
        let ghost a = self@.mandatory_order();
        let ghost b = visited@.map_values(|s: &str| s@);
        let mut mand_idx: usize = 0;
        let n = visited.len();
        for i in 0..n
            invariant
                n == visited@.len(),
                a == mandatory_order@.map_values(|s: &str| s@),
                b == visited@.map_values(|s: &str| s@),
                mand_idx == greedy_matched(a, b.take(i as int)),
                mand_idx <= a.len(),
        {
            proof {
                assert(b.take(i + 1).drop_last() =~= b.take(i as int));
                assert(b.take(i + 1).last() == visited@[i as int]@);
            }
            if mand_idx < mandatory_order.len() && str_eq(visited[i], mandatory_order[mand_idx]) {
                mand_idx = mand_idx + 1;
            }
        }
        proof {
            assert(b.take(n as int) =~= b);
            lemma_greedy_iff_subsequence(a, b);
        }
        mand_idx == mandatory_order.len()
    }

    /// The name of the pilgrimage.
    pub fn name(&self) -> (r: &str)
        ensures
            r@ == self@.name,
    {
        self.name.as_str()
    }

    pub fn waypoint_count(&self) -> (r: usize)
        ensures
            r == self@.stops.len(),
    {
        self.waypoints.len()
    }

    /// The number of distinct mandatory rooms.
    pub fn mandatory_count(&self) -> (r: usize)
        ensures
            r == self@.mandatory.len(),
    {
        self.mandatory.len()
    }

    /// The rooms of the route, in order.
    pub fn route(&self) -> (r: Vec<&str>)
        ensures
            r@.map_values(|s: &str| s@) == self@.route(),
    {
        let mut r: Vec<&str> = Vec::new();
        let n = self.waypoints.len();
        for i in 0..n
            invariant
                n == self.waypoints@.len(),
                r@.len() == i,
                forall|j: int| 0 <= j < i ==> #[trigger] r@[j]@ == self.waypoints@[j].room@,
        {
            r.push(self.waypoints[i].room.as_str());
        }
        assert(r@.map_values(|s: &str| s@) =~= self@.route());
        r
    }
}


/// Walking the pilgrimage's own route, stop by stop, satisfies it.
pub proof fn lemma_route_satisfies(p: PilgrimageView)
    ensures
        p.satisfied_by(p.route()),
{
    let f = lemma_filter_is_subsequence(p.route(), |r: Seq<char>| p.mandatory.contains(r));
    assert(is_embedding(p.mandatory_order(), p.route(), f));
}

/// Optional rooms may come anywhere in a journey: visiting one more room,
/// at any point, keeps a satisfying journey satisfying.
pub proof fn lemma_detour_keeps_satisfaction(
    p: PilgrimageView,
    visited: Seq<Seq<char>>,
    k: int,
    room: Seq<char>,
)
    requires
        p.satisfied_by(visited),
        0 <= k <= visited.len(),
    ensures
        p.satisfied_by(visited.insert(k, room)),
{
    let a = p.mandatory_order();
    let b = visited.insert(k, room);
    let f = choose|f: Seq<int>| is_embedding(a, visited, f);
    let g = Seq::new(f.len(), |i: int| if f[i] < k { f[i] } else { f[i] + 1 });
    assert forall|i: int| 0 <= i < g.len() implies 0 <= #[trigger] g[i] < b.len() && b[g[i]] == a[i] by {
        assert(0 <= f[i] < visited.len() && visited[f[i]] == a[i]);
    }
    assert forall|i: int, j: int| 0 <= i < j < g.len() implies #[trigger] g[i] < #[trigger] g[j] by {
        assert(f[i] < f[j]);
    }
    assert(is_embedding(a, b, g));
}

/// A journey that never enters a mandatory room does not satisfy the
/// pilgrimage.
pub proof fn lemma_missing_mandatory_fails(p: PilgrimageView, visited: Seq<Seq<char>>, room: Seq<char>)
    requires
        p.mandatory_order().contains(room),
        !visited.contains(room),
    ensures
        !p.satisfied_by(visited),
{
    let a = p.mandatory_order();
    if p.satisfied_by(visited) {
        let f = choose|f: Seq<int>| is_embedding(a, visited, f);
        let i = choose|i: int| 0 <= i < a.len() && a[i] == room;
        assert(0 <= f[i] < visited.len() && visited[f[i]] == a[i]);
    }
}

/// Mandatory waypoints must be passed in route order: a journey that passes
/// a later mandatory room only before an earlier one does not satisfy.
pub proof fn lemma_order_matters(p: PilgrimageView, visited: Seq<Seq<char>>, i: int, j: int)
    requires
        0 <= i < j < p.mandatory_order().len(),
        forall|x: int, y: int|
            0 <= x < y < visited.len() && visited[x] == p.mandatory_order()[i] ==> visited[y]
                != p.mandatory_order()[j],
    ensures
        !p.satisfied_by(visited),
{
    let a = p.mandatory_order();
    if p.satisfied_by(visited) {
        let f = choose|f: Seq<int>| is_embedding(a, visited, f);
        assert(f[i] < f[j]);
        assert(visited[f[i]] == a[i] && visited[f[j]] == a[j]);
    }
}

/// A pilgrimage with no mandatory rooms is satisfied by every journey,
/// the empty one included.
pub proof fn lemma_nothing_mandatory(p: PilgrimageView, visited: Seq<Seq<char>>)
    requires
        p.mandatory == Set::<Seq<char>>::empty(),
    ensures
        p.satisfied_by(visited),
{
    let a = p.mandatory_order();
    if a.len() > 0 {
        p.route().lemma_filter_pred(|r: Seq<char>| p.mandatory.contains(r), 0);
    }
    assert(is_embedding(a, visited, Seq::<int>::empty()));
}

/// Optional rooms may be skipped: the mandatory rooms alone, in route order,
/// satisfy the pilgrimage, however many optional waypoints the route has.
pub proof fn lemma_mandatory_rooms_alone_satisfy(p: PilgrimageView)
    ensures
        p.satisfied_by(p.mandatory_order()),
{
    let a = p.mandatory_order();
    let f = Seq::new(a.len(), |i: int| i);
    assert(is_embedding(a, a, f));
}

/// Leaving out a visit to a room that is not mandatory keeps a satisfying
/// journey satisfying.
pub proof fn lemma_skipping_optional_keeps_satisfaction(p: PilgrimageView, visited: Seq<Seq<char>>, k: int)
    requires
        p.satisfied_by(visited),
        0 <= k < visited.len(),
        !p.mandatory.contains(visited[k]),
    ensures
        p.satisfied_by(visited.remove(k)),
{
    let a = p.mandatory_order();
    let pred = |r: Seq<char>| p.mandatory.contains(r);
    let b = visited.remove(k);
    let f = choose|f: Seq<int>| is_embedding(a, visited, f);
    let g = Seq::new(f.len(), |i: int| if f[i] < k { f[i] } else { f[i] - 1 });
    assert forall|i: int| 0 <= i < g.len() implies 0 <= #[trigger] g[i] < b.len() && b[g[i]] == a[i] by {
        assert(0 <= f[i] < visited.len() && visited[f[i]] == a[i]);
        p.route().lemma_filter_pred(pred, i);
        assert(p.mandatory.contains(a[i]));
        assert(f[i] != k);
    }
    assert forall|i: int, j: int| 0 <= i < j < g.len() implies #[trigger] g[i] < #[trigger] g[j] by {
        assert(f[i] < f[j]);
        assert(visited[f[i]] == a[i] && visited[f[j]] == a[j]);
        p.route().lemma_filter_pred(pred, i);
        p.route().lemma_filter_pred(pred, j);
        assert(f[i] != k && f[j] != k);
    }
    assert(is_embedding(a, b, g));
}

} // verus!
