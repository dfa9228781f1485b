//! Waypoints and the repeating journeys (`Pilgrim`) made of them.

use vstd::prelude::*;
use crate::text::{first_position, lemma_first_position, owned, str_eq};

verus! {

/// What a waypoint holds: its room, its place in the journey and its label.
pub struct WaypointView {
    pub room: Seq<char>,
    pub order: usize,
    pub label: Option<Seq<char>>,
}

/// A single waypoint in a journey.
#[derive(Clone, Debug, PartialEq)]
pub struct Waypoint {
    pub room: String,
    /// Order in the journey (0-based).
    pub order: usize,
    /// Optional label for this stop.
    pub label: Option<String>,
}

impl View for Waypoint {
    type V = WaypointView;

    open spec fn view(&self) -> WaypointView {
        WaypointView {
            room: self.room@,
            order: self.order,
            label: match self.label {
                Some(l) => Some(l@),
                None => None,
            },
        }
    }
}

impl Waypoint {
    pub fn new(room: &str, order: usize) -> (w: Self)
        ensures
            w@ == (WaypointView { room: room@, order, label: None }),
    {
        Waypoint { room: owned(room), order, label: None }
    }

    pub fn labeled(room: &str, order: usize, label: &str) -> (w: Self)
        ensures
            w@ == (WaypointView { room: room@, order, label: Some(label@) }),
    {
        Waypoint { room: owned(room), order, label: Some(owned(label)) }
    }
}


/// The rooms of a sequence of waypoints, in order.
pub open spec fn rooms_of(stops: Seq<WaypointView>) -> Seq<Seq<char>> {
    stops.map_values(|w: WaypointView| w.room)
}

/// What a journey holds: its agent, its waypoints in order, how often it
/// repeats and how many times it was completed.
pub struct PilgrimView {
    pub agent: Seq<char>,
    pub stops: Seq<WaypointView>,
    pub repeat_interval: u64,
    pub completions: u64,
}

impl PilgrimView {
    /// The rooms of the journey, in order.
    pub open spec fn route(self) -> Seq<Seq<char>> {
        rooms_of(self.stops)
    }

    /// Each waypoint's order is its position in the journey.
    pub open spec fn wf(self) -> bool {
        forall|i: int| 0 <= i < self.stops.len() ==> #[trigger] self.stops[i].order == i
    }

    /// The journey after one more waypoint.
    pub open spec fn append(self, room: Seq<char>, label: Option<Seq<char>>) -> PilgrimView {
        PilgrimView {
            stops: self.stops.push(WaypointView { room, order: self.stops.len() as usize, label }),
            ..self
        }
    }

    /// Starts and ends in the same room, with at least two stops.
    pub open spec fn is_round_trip(self) -> bool {
        self.route().len() >= 2 && self.route()[0] == self.route().last()
    }
}

/// A repeating journey that an agent makes.
#[derive(Clone, Debug)]
pub struct Pilgrim {
    pub agent: String,
    /// Ordered list of waypoints.
    waypoints: Vec<Waypoint>,
    /// How often this journey repeats (in ticks, 0 = one-time).
    pub repeat_interval: u64,
    /// Total number of completed journeys.
    pub completions: u64,
}

impl View for Pilgrim {
    type V = PilgrimView;

    closed spec fn view(&self) -> PilgrimView {
        PilgrimView {
            agent: self.agent@,
            stops: self.waypoints@.map_values(|w: Waypoint| w@),
            repeat_interval: self.repeat_interval,
            completions: self.completions,
        }
    }
}

impl Pilgrim {
    pub fn new(agent: &str, repeat_interval: u64) -> (p: Self)
        ensures
            p@ == (PilgrimView {
                agent: agent@,
                stops: Seq::empty(),
                repeat_interval,
                completions: 0,
            }),
            p@.wf(),
    {
        let p = Pilgrim { agent: owned(agent), waypoints: Vec::new(), repeat_interval, completions: 0 };
        assert(p@.stops =~= Seq::<WaypointView>::empty());
        p
    }

    /// Add a waypoint to the journey (appended at end).
    pub fn add_waypoint(&mut self, room: &str)
        ensures
            final(self)@ == old(self)@.append(room@, None),
            old(self)@.wf() ==> final(self)@.wf(),
    {
        let order = self.waypoints.len();
        self.waypoints.push(Waypoint::new(room, order));
        assert(self@.stops =~= old(self)@.append(room@, None).stops);
    }

    /// Add a labeled waypoint.
    pub fn add_labeled_waypoint(&mut self, room: &str, label: &str)
        ensures
            final(self)@ == old(self)@.append(room@, Some(label@)),
            old(self)@.wf() ==> final(self)@.wf(),
    {
        let order = self.waypoints.len();
        self.waypoints.push(Waypoint::labeled(room, order, label));
        assert(self@.stops =~= old(self)@.append(room@, Some(label@)).stops);
    }

    /// Get the ordered waypoints.
    pub fn waypoints(&self) -> (r: &[Waypoint])
        ensures
            r@.map_values(|w: Waypoint| w@) == self@.stops,
    {
        self.waypoints.as_slice()
    }

    /// Record a completion of this journey.
    pub fn complete(&mut self)
        requires
            old(self)@.completions < u64::MAX,
        ensures
            final(self)@ == (PilgrimView { completions: (old(self)@.completions + 1) as u64, ..old(self)@ }),
    {
        self.completions = self.completions + 1;
    }

    /// Get the full route as room names in order.
    pub fn route(&self) -> (r: Vec<&str>)
        ensures
            r@.map_values(|s: &str| s@) == self@.route(),
    {
        let mut r: Vec<&str> = Vec::new();
        let n = self.waypoints.len();
        for i in 0..n
            invariant
                n == self.waypoints@.len(),
                r@.len() == i,
                forall|j: int| 0 <= j < i ==> #[trigger] r@[j]@ == self.waypoints@[j].room@,
        {
            r.push(self.waypoints[i].room.as_str());
        }
        assert(r@.map_values(|s: &str| s@) =~= self@.route());
        r
    }

    /// Does the journey pass through a specific room?
    pub fn passes_through(&self, room: &str) -> (r: bool)
        ensures
            r == self@.route().contains(room@),
    {
        match self.position_of(room) {
            Some(_) => true,
            None => false,
        }
    }

    /// The index of the first waypoint in `room`, if any.
    fn position_of(&self, room: &str) -> (r: Option<usize>)
        ensures
            r matches Some(i) ==> i < self@.stops.len() && first_position(self@.route(), room@)
                == Some(i as int),
            r is None ==> first_position(self@.route(), room@) is None,
            r is None <==> !self@.route().contains(room@),
    {
        let n = self.waypoints.len();
        for i in 0..n
            invariant
                n == self.waypoints@.len(),
                forall|j: int| 0 <= j < i ==> self@.route()[j] != room@,
        {
            if str_eq(self.waypoints[i].room.as_str(), room) {
                proof { lemma_first_position(self@.route(), room@, i as int); }
                return Some(i);
            }
        }
        assert(!self@.route().contains(room@));
        None
    }

    /// The agent making the journey.
    pub fn agent(&self) -> (r: &str)
        ensures
            r@ == self@.agent,
    {
        self.agent.as_str()
    }

    /// How often the journey repeats (in ticks, 0 = one-time).
    pub fn repeat_interval(&self) -> (r: u64)
        ensures
            r == self@.repeat_interval,
    {
        self.repeat_interval
    }

    /// How many times the journey was completed.
    pub fn completions(&self) -> (r: u64)
        ensures
            r == self@.completions,
    {
        self.completions
    }

    /// Number of waypoints.
    pub fn waypoint_count(&self) -> (r: usize)
        ensures
            r == self@.stops.len(),
    {
        self.waypoints.len()
    }

    /// Is this a round trip (starts and ends in the same room)?
    pub fn is_round_trip(&self) -> (r: bool)
        ensures
            r == self@.is_round_trip(),
    {
        let n = self.waypoints.len();
        if n < 2 {
            return false;
        }
        self.waypoints[0].room == self.waypoints[n - 1].room
    }

    /// Get waypoint by room name: the first one in that room.
    pub fn waypoint_for_room(&self, room: &str) -> (r: Option<&Waypoint>)
        ensures
            r is None <==> !self@.route().contains(room@),
            r matches Some(w) ==> (first_position(self@.route(), room@) matches Some(i)
                && w@ == self@.stops[i]),
    {
        match self.position_of(room) {
            Some(i) => Some(&self.waypoints[i]),
            None => None,
        }
    }
}

/// Adding a waypoint extends the route by its room: the journey then
/// passes through that room, and the new waypoint's order is its position.
pub proof fn lemma_append_extends_route(p: PilgrimView, room: Seq<char>, label: Option<Seq<char>>)
    requires
        p.stops.len() <= usize::MAX,
    ensures
        p.append(room, label).route() == p.route().push(room),
        p.append(room, label).route().contains(room),
        p.append(room, label).stops.last().order == p.stops.len(),
        p.wf() ==> p.append(room, label).wf(),
{
    assert(p.append(room, label).route() =~= p.route().push(room));
    assert(p.append(room, label).route()[p.stops.len() as int] == room);
}

/// A journey with at least two stops is a round trip exactly when its last
/// stop is in its first room; so ending where it started makes it one.
pub proof fn lemma_return_makes_round_trip(p: PilgrimView)
    requires
        1 <= p.stops.len() <= usize::MAX,
    ensures
        p.append(p.route()[0], None).is_round_trip(),
{
    lemma_append_extends_route(p, p.route()[0], None);
}

/// A journey that ends in a room other than its first is not a round trip,
/// whatever rooms it passed through on the way.
pub proof fn lemma_ending_elsewhere_is_no_round_trip(p: PilgrimView, room: Seq<char>, label: Option<Seq<char>>)
    requires
        1 <= p.stops.len() <= usize::MAX,
        room != p.route()[0],
    ensures
        !p.append(room, label).is_round_trip(),
{
    lemma_append_extends_route(p, room, label);
}

/// Whether a journey is a round trip depends only on its first and last
/// rooms: two journeys of at least two stops that start in the same room and
/// end in the same room are both round trips or both not.
pub proof fn lemma_round_trip_by_ends(p: PilgrimView, q: PilgrimView)
    requires
        p.stops.len() >= 2,
        q.stops.len() >= 2,
        p.route()[0] == q.route()[0],
        p.route().last() == q.route().last(),
    ensures
        p.is_round_trip() == q.is_round_trip(),
        p.is_round_trip() == (p.stops.last().room == p.stops[0].room),
{
}

} // verus!
