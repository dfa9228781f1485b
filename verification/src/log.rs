//! The movement log: every room crossing of every agent, with queries on it.

use vstd::prelude::*;
use crate::text::{find_string, owned, str_eq, views};

verus! {

/// One logged movement.
pub struct MoveView {
    pub agent: Seq<char>,
    pub from: Seq<char>,
    pub to: Seq<char>,
    pub tick: u64,
}

/// The movements of `agent`, in log order, as (from, to, tick).
pub open spec fn movements_of(moves: Seq<MoveView>, agent: Seq<char>) -> Seq<(Seq<char>, Seq<char>, u64)> {
    moves.filter(|m: MoveView| m.agent == agent).map_values(|m: MoveView| (m.from, m.to, m.tick))
}

/// How many movements went from `from` to `to`.
pub open spec fn trips(moves: Seq<MoveView>, from: Seq<char>, to: Seq<char>) -> nat {
    moves.filter(|m: MoveView| m.from == from && m.to == to).len()
}

/// How many movements arrived in `room`.
#[verifier::opaque]
pub open spec fn arrivals(moves: Seq<MoveView>, room: Seq<char>) -> nat {
    moves.filter(|m: MoveView| m.to == room).len()
}

/// The rooms that some movement arrived in.
pub open spec fn arrival_rooms(moves: Seq<MoveView>) -> Set<Seq<char>> {
    moves.map_values(|m: MoveView| m.to).to_set()
}

/// The smaller of two counts.
pub open spec fn min_count(a: int, b: int) -> int {
    if a < b {
        a
    } else {
        b
    }
}

#[derive(Clone, Debug)]
struct LogEntry {
    agent: String,
    from_room: String,
    to_room: String,
    tick: u64,
}

impl View for LogEntry {
    type V = MoveView;

    closed spec fn view(&self) -> MoveView {
        MoveView { agent: self.agent@, from: self.from_room@, to: self.to_room@, tick: self.tick }
    }
}

/// Log of journeys taken by agents.
#[derive(Clone, Debug)]
pub struct PilgrimLog {
    entries: Vec<LogEntry>,
}

impl View for PilgrimLog {
    type V = Seq<MoveView>;

    closed spec fn view(&self) -> Seq<MoveView> {
        self.entries@.map_values(|e: LogEntry| e@)
    }
}

/// The filter of one more element: the old filter, with the element if it
/// passes.
proof fn lemma_filter_step<A>(s: Seq<A>, i: int, pred: spec_fn(A) -> bool)
    requires
        0 <= i < s.len(),
    ensures
        s.take(i + 1).filter(pred) == if pred(s[i]) {
            s.take(i).filter(pred).push(s[i])
        } else {
            s.take(i).filter(pred)
        },
{
    reveal_with_fuel(Seq::<_>::filter, 1);
    assert(s.take(i + 1).drop_last() =~= s.take(i));
}

/// Counting arrivals one movement further.
proof fn lemma_arrivals_step(s: Seq<MoveView>, i: int, room: Seq<char>)
    requires
        0 <= i < s.len(),
    ensures
        arrivals(s.take(i + 1), room) == arrivals(s.take(i), room) + if s[i].to == room {
            1int
        } else {
            0int
        },
{
    reveal(arrivals);
    lemma_filter_step(s, i, |m: MoveView| m.to == room);
}

/// No movement, no arrivals.
proof fn lemma_arrivals_none(s: Seq<MoveView>, room: Seq<char>)
    requires
        s.len() == 0,
    ensures
        arrivals(s, room) == 0,
{
    reveal(arrivals);
    reveal_with_fuel(Seq::<_>::filter, 1);
}

impl PilgrimLog {
    pub fn new() -> (l: Self)
        ensures
            l@ == Seq::<MoveView>::empty(),
    {
        let l = PilgrimLog { entries: Vec::new() };
        assert(l@ =~= Seq::<MoveView>::empty());
        l
    }

    /// Log a movement.
    pub fn log(&mut self, agent: &str, from: &str, to: &str, tick: u64)
        ensures
            final(self)@ == old(self)@.push(MoveView { agent: agent@, from: from@, to: to@, tick }),
    {
        self.entries.push(LogEntry { agent: owned(agent), from_room: owned(from), to_room: owned(to), tick });
        assert(self@ =~= old(self)@.push(MoveView { agent: agent@, from: from@, to: to@, tick }));
    }

    /// Total number of logged movements.
    pub fn entry_count(&self) -> (r: usize)
        ensures
            r == self@.len(),
    {
        self.entries.len()
    }

    /// Get movements by a specific agent, in log order.
    pub fn movements_by(&self, agent: &str) -> (r: Vec<(String, String, u64)>)
        ensures
            r@.map_values(|t: (String, String, u64)| (t.0@, t.1@, t.2)) == movements_of(self@, agent@),
    {
        let ghost pred = |m: MoveView| m.agent == agent@;
        let ghost out = |m: MoveView| (m.from, m.to, m.tick);
        let mut r: Vec<(String, String, u64)> = Vec::new();
        let n = self.entries.len();
        for i in 0..n
            invariant
                n == self@.len(),
                pred == (|m: MoveView| m.agent == agent@),
                out == (|m: MoveView| (m.from, m.to, m.tick)),
                r@.map_values(|t: (String, String, u64)| (t.0@, t.1@, t.2)) == self@.take(
                    i as int,
                ).filter(pred).map_values(out),
        {
            let e = &self.entries[i];
            proof {
                lemma_filter_step(self@, i as int, pred);
                assert(self@[i as int] == e@);
            }
            if str_eq(e.agent.as_str(), agent) {
                let ghost before = r@;
                r.push((e.from_room.clone(), e.to_room.clone(), e.tick));
                proof {
                    let prev = self@.take(i as int).filter(pred);
                    let tv = |t: (String, String, u64)| (t.0@, t.1@, t.2);
                    assert(before.map_values(tv) == prev.map_values(out));
                    assert(prev.push(self@[i as int]).map_values(out) =~= prev.map_values(out).push(
                        out(self@[i as int]),
                    ));
                    assert(r@.map_values(tv) =~= before.map_values(tv).push(tv(r@.last())));
                }
            }
        }
        assert(self@.take(n as int) =~= self@);
        r
    }

    /// Count movements between two specific rooms.
    pub fn trips_between(&self, from: &str, to: &str) -> (r: usize)
        ensures
            r == trips(self@, from@, to@),
    {
        let ghost pred = |m: MoveView| m.from == from@ && m.to == to@;
        let mut c: usize = 0;
        let n = self.entries.len();
        for i in 0..n
            invariant
                n == self@.len(),
                pred == (|m: MoveView| m.from == from@ && m.to == to@),
                c == self@.take(i as int).filter(pred).len(),
                c <= i,
        {
            let e = &self.entries[i];
            proof {
                lemma_filter_step(self@, i as int, pred);
                assert(self@[i as int] == e@);
            }
            if str_eq(e.from_room.as_str(), from) && str_eq(e.to_room.as_str(), to) {
                c = c + 1;
            }
        }
        assert(self@.take(n as int) =~= self@);
        c
    }

    /// The distinct arrival rooms in order of first arrival, with how many
    /// movements arrived in each.
    fn arrival_counts(&self) -> (r: (Vec<String>, Vec<usize>))
        ensures
            r.0@.len() == r.1@.len(),
            views(r.0@).no_duplicates(),
            views(r.0@).to_set() == arrival_rooms(self@),
            forall|j: int| 0 <= j < r.1@.len() ==> #[trigger] r.1@[j] == arrivals(self@, r.0@[j]@),
    {
        let ghost tos = self@.map_values(|m: MoveView| m.to);
        let mut rooms: Vec<String> = Vec::new();
        let mut counts: Vec<usize> = Vec::new();
        let n = self.entries.len();
        proof {
            assert forall|r: Seq<char>| #[trigger] arrivals(self@.take(0), r) == 0 by {
                lemma_arrivals_none(self@.take(0), r);
            }
        }
        let mut i: usize = 0;
        while i < n
            invariant
                i <= n,
                n == self@.len(),
                tos == self@.map_values(|m: MoveView| m.to),
                rooms@.len() == counts@.len(),
                views(rooms@).no_duplicates(),
                forall|r: Seq<char>| views(rooms@).contains(r) <==> tos.take(i as int).contains(r),
                forall|r: Seq<char>|
                    #![trigger arrivals(self@.take(i as int), r)]
                    !views(rooms@).contains(r) ==> arrivals(self@.take(i as int), r) == 0,
                forall|j: int|
                    0 <= j < counts@.len() ==> #[trigger] counts@[j] == arrivals(
                        self@.take(i as int),
                        rooms@[j]@,
                    ),
                forall|j: int| 0 <= j < counts@.len() ==> #[trigger] counts@[j] <= i,
            decreases n - i,
        {
            let e = &self.entries[i];
            let ghost to = e.to_room@;
            proof {
                assert(self@[i as int] == e@);
                assert forall|r: Seq<char>|
                    #[trigger] arrivals(self@.take(i + 1), r) == arrivals(self@.take(i as int), r) + if to
                        == r {
                        1int
                    } else {
                        0int
                    } by {
                    lemma_arrivals_step(self@, i as int, r);
                }
                assert(tos.take(i + 1) =~= tos.take(i as int).push(to));
            }
            let ghost old_rooms = rooms@;
            let ghost old_counts = counts@;
            let ghost t0 = tos.take(i as int);
            let ghost t1 = tos.take(i + 1);
            assert(forall|r: Seq<char>|
                #![trigger views(old_rooms).contains(r)]
                #![trigger t0.contains(r)]
                views(old_rooms).contains(r) <==> t0.contains(r));
            match find_string(&rooms, e.to_room.as_str()) {
                Some(j) => {
                    let c = counts[j] + 1;
                    counts.set(j, c);
                    proof {
                        assert forall|jj: int| 0 <= jj < counts@.len() implies #[trigger] counts@[jj]
                            == arrivals(self@.take(i + 1), rooms@[jj]@) by {
                            if jj != j {
                                assert(views(rooms@)[jj] != views(rooms@)[j as int]);
                                assert(arrivals(self@.take(i + 1), rooms@[jj]@) == arrivals(self@.take(i as int), rooms@[jj]@));
                            } else {
                                assert(arrivals(self@.take(i + 1), to) == arrivals(self@.take(i as int), to) + 1);
                            }
                        }
                        assert(views(rooms@)[j as int] == to);
                        assert forall|r: Seq<char>| views(rooms@).contains(r) <==> t1.contains(r) by {
                            if r == to {
                                assert(views(rooms@)[j as int] == r);
                                assert(t1[i as int] == r);
                            }
                            if t1.contains(r) && r != to {
                                let k = choose|k: int| 0 <= k < t1.len() && t1[k] == r;
                                assert(t0[k] == r);
                            }
                        }
                    }
                },
                None => {
                    assert(!views(rooms@).contains(to));
                    assert(arrivals(self@.take(i as int), to) == 0);
                    rooms.push(e.to_room.clone());
                    counts.push(1);
                    proof {
                        assert(views(rooms@) =~= views(old_rooms).push(to));
                        assert(arrivals(self@.take(i as int), to) == 0);
                        assert(arrivals(self@.take(i + 1), to) == 1);
                        assert forall|jj: int| 0 <= jj < counts@.len() implies #[trigger] counts@[jj]
                            == arrivals(self@.take(i + 1), rooms@[jj]@) by {
                            if jj < old_counts.len() {
                                assert(views(old_rooms)[jj] != to);
                                assert(old_counts[jj] == counts@[jj]);
                                assert(rooms@[jj] == old_rooms[jj]);
                                assert(arrivals(self@.take(i + 1), old_rooms[jj]@) == arrivals(self@.take(i as int), old_rooms[jj]@));
                            } else {
                                assert(rooms@[jj]@ == to);
                            }
                        }
                        assert(views(rooms@)[old_rooms.len() as int] == to);
                        assert forall|r: Seq<char>| views(rooms@).contains(r) <==> t1.contains(r) by {
                            if views(rooms@).contains(r) {
                                let k = choose|k: int| 0 <= k < views(rooms@).len() && views(rooms@)[k] == r;
                                if k < old_rooms.len() {
                                    assert(views(old_rooms)[k] == r);
                                    assert(t0.contains(r));
                                    let k2 = choose|k2: int| 0 <= k2 < t0.len() && t0[k2] == r;
                                    assert(t1[k2] == r);
                                } else {
                                    assert(t1[i as int] == r);
                                }
                            }
                            if t1.contains(r) {
                                let k = choose|k: int| 0 <= k < t1.len() && t1[k] == r;
                                if k < i {
                                    assert(t0[k] == r);
                                    assert(t0.contains(r));
                                    assert(views(old_rooms).contains(r));
                                    let k2 = choose|k2: int| 0 <= k2 < views(old_rooms).len() && views(old_rooms)[k2] == r;
                                    assert(views(rooms@)[k2] == r);
                                } else {
                                    assert(views(rooms@)[old_rooms.len() as int] == r);
                                }
                            }
                        }
                        assert forall|a: int, b: int|
                            0 <= a < views(rooms@).len() && 0 <= b < views(rooms@).len() && a != b implies
                            views(rooms@)[a] != views(rooms@)[b] by {
                            if a < old_rooms.len() && b < old_rooms.len() {
                                assert(views(old_rooms)[a] != views(old_rooms)[b]);
                            } else if a < old_rooms.len() {
                                assert(views(old_rooms).contains(views(old_rooms)[a]));
                            } else if b < old_rooms.len() {
                                assert(views(old_rooms).contains(views(old_rooms)[b]));
                            }
                        }
                    }
                },
            }
            proof {
                assert(views(rooms@).contains(to));
                assert forall|r: Seq<char>| !views(rooms@).contains(r) implies #[trigger] arrivals(
                    self@.take(i + 1),
                    r,
                ) == 0 by {
                    assert(r != to);
                    if views(old_rooms).contains(r) {
                        let k = choose|k: int| 0 <= k < views(old_rooms).len() && views(old_rooms)[k] == r;
                        assert(views(rooms@)[k] == r);
                    }
                    assert(arrivals(self@.take(i as int), r) == 0);
                }
            }
            i = i + 1;
        }
        proof {
            assert(self@.take(n as int) =~= self@);
            assert(tos.take(n as int) =~= tos);
            assert(views(rooms@).to_set() =~= arrival_rooms(self@));
        }
        (rooms, counts)
    }


    /// The most visited rooms (by arrivals), at most `limit` of them, most
    /// visited first; each with its number of arrivals.
    pub fn most_visited(&self, limit: usize) -> (r: Vec<(String, usize)>)
        ensures
            r@.len() == min_count(limit as int, arrival_rooms(self@).len() as int),
            forall|t: int|
                0 <= t < r@.len() ==> arrival_rooms(self@).contains(#[trigger] r@[t].0@) && r@[t].1
                    == arrivals(self@, r@[t].0@),
            forall|t: int, u: int|
                0 <= t < u < r@.len() ==> #[trigger] r@[t].0@ != #[trigger] r@[u].0@ && r@[t].1 >= r@[u].1,
            forall|room: Seq<char>, t: int|
                #![trigger arrivals(self@, room), r@[t]]
                arrival_rooms(self@).contains(room) && (forall|u: int| 0 <= u < r@.len() ==> r@[u].0@ != room)
                    && 0 <= t < r@.len() ==> arrivals(self@, room) <= r@[t].1,
    {
        let (rooms, counts) = self.arrival_counts();
        let m = rooms.len();
        proof { views(rooms@).unique_seq_to_set(); }
        let k = if limit < m { limit } else { m };
        let mut left_rooms = rooms;
        let mut left_counts = counts;
        let mut result: Vec<(String, usize)> = Vec::new();
        while result.len() < k
            invariant
                k <= m,
                result@.len() <= k,
                k == min_count(limit as int, arrival_rooms(self@).len() as int),
                left_rooms@.len() == left_counts@.len(),
                left_rooms@.len() + result@.len() == m,
                views(left_rooms@).no_duplicates(),
                forall|j: int|
                    0 <= j < left_counts@.len() ==> #[trigger] left_counts@[j] == arrivals(
                        self@,
                        left_rooms@[j]@,
                    ),
                forall|t: int| 0 <= t < result@.len() ==> #[trigger] result@[t].1 == arrivals(self@, result@[t].0@),
                forall|room: Seq<char>|
                    #![trigger arrival_rooms(self@).contains(room)]
                    arrival_rooms(self@).contains(room) <==> (views(left_rooms@).contains(room) || exists|t: int|
                        0 <= t < result@.len() && #[trigger] result@[t].0@ == room),
                forall|t: int, u: int|
                    0 <= t < u < result@.len() ==> #[trigger] result@[t].0@ != #[trigger] result@[u].0@
                        && result@[t].1 >= result@[u].1,
                forall|t: int, j: int|
                    0 <= t < result@.len() && 0 <= j < left_rooms@.len() ==> #[trigger] result@[t].0@
                        != #[trigger] left_rooms@[j]@ && left_counts@[j] <= result@[t].1,
            decreases k - result@.len(),
        {
            let lc = left_counts.len();
            let mut best: usize = 0;
            let mut j: usize = 1;
            while j < lc
                invariant
                    lc == left_counts@.len(),
                    lc > 0,
                    best < lc,
                    1 <= j <= lc,
                    forall|jj: int| 0 <= jj < j ==> left_counts@[jj] <= left_counts@[best as int],
                decreases lc - j,
            {
                if left_counts[j] > left_counts[best] {
                    best = j;
                }
                j = j + 1;
            }
            let ghost old_left = left_rooms@;
            let ghost old_counts = left_counts@;
            let ghost old_result = result@;
            let room = left_rooms.remove(best);
            let c = left_counts.remove(best);
            result.push((room, c));
            proof {
                let b = best as int;
                assert(views(left_rooms@) =~= views(old_left).remove(b));
                assert forall|x: int, y: int|
                    0 <= x < views(left_rooms@).len() && 0 <= y < views(left_rooms@).len() && x != y implies
                    views(left_rooms@)[x] != views(left_rooms@)[y] by {
                    let x0 = if x < b { x } else { x + 1 };
                    let y0 = if y < b { y } else { y + 1 };
                    assert(views(old_left)[x0] != views(old_left)[y0]);
                }
                assert forall|jj: int| 0 <= jj < left_counts@.len() implies #[trigger] left_counts@[jj]
                    == arrivals(self@, left_rooms@[jj]@) by {
                    let j0 = if jj < b { jj } else { jj + 1 };
                    assert(old_counts[j0] == arrivals(self@, old_left[j0]@));
                }
                assert forall|t: int| 0 <= t < result@.len() implies #[trigger] result@[t].1 == arrivals(
                    self@,
                    result@[t].0@,
                ) by {
                    if t < old_result.len() {
                        assert(result@[t] == old_result[t]);
                    } else {
                        assert(old_counts[b] == arrivals(self@, old_left[b]@));
                    }
                }
                assert forall|room: Seq<char>|
                    #![trigger arrival_rooms(self@).contains(room)]
                    arrival_rooms(self@).contains(room) <==> (views(left_rooms@).contains(room)
                        || exists|t: int| 0 <= t < result@.len() && #[trigger] result@[t].0@ == room) by {
                    if arrival_rooms(self@).contains(room) {
                        if views(old_left).contains(room) {
                            let i0 = choose|i0: int| 0 <= i0 < views(old_left).len() && views(old_left)[i0] == room;
                            if i0 == b {
                                assert(result@[old_result.len() as int].0@ == room);
                            } else {
                                let i1 = if i0 < b { i0 } else { i0 - 1 };
                                assert(views(left_rooms@)[i1] == room);
                            }
                        } else {
                            let t = choose|t: int| 0 <= t < old_result.len() && #[trigger] old_result[t].0@ == room;
                            assert(result@[t] == old_result[t]);
                        }
                    }
                    if views(left_rooms@).contains(room) {
                        let i1 = choose|i1: int| 0 <= i1 < views(left_rooms@).len() && views(left_rooms@)[i1] == room;
                        let i0 = if i1 < b { i1 } else { i1 + 1 };
                        assert(views(old_left)[i0] == room);
                    }
                    if exists|t: int| 0 <= t < result@.len() && #[trigger] result@[t].0@ == room {
                        let t = choose|t: int| 0 <= t < result@.len() && #[trigger] result@[t].0@ == room;
                        if t < old_result.len() {
                            assert(old_result[t].0@ == room);
                        } else {
                            assert(views(old_left)[b] == room);
                        }
                    }
                }
                assert forall|t: int, u: int|
                    0 <= t < u < result@.len() implies #[trigger] result@[t].0@ != #[trigger] result@[u].0@
                        && result@[t].1 >= result@[u].1 by {
                    if u < old_result.len() {
                        assert(result@[t] == old_result[t] && result@[u] == old_result[u]);
                    } else {
                        assert(result@[t] == old_result[t]);
                        assert(old_result[t].0@ != old_left[b]@ && old_counts[b] <= old_result[t].1);
                    }
                }
                assert forall|t: int, jj: int|
                    0 <= t < result@.len() && 0 <= jj < left_rooms@.len() implies #[trigger] result@[t].0@
                        != #[trigger] left_rooms@[jj]@ && left_counts@[jj] <= result@[t].1 by {
                    let j0 = if jj < b { jj } else { jj + 1 };
                    assert(left_rooms@[jj] == old_left[j0] && left_counts@[jj] == old_counts[j0]);
                    if t < old_result.len() {
                        assert(result@[t] == old_result[t]);
                        assert(old_result[t].0@ != old_left[j0]@ && old_counts[j0] <= old_result[t].1);
                    } else {
                        assert(views(old_left)[b] != views(old_left)[j0]);
                        assert(old_counts[j0] <= old_counts[b]);
                    }
                }
            }
        }
        proof {
            assert forall|room: Seq<char>, t: int|
                #![trigger arrivals(self@, room), result@[t]]
                arrival_rooms(self@).contains(room) && (forall|u: int| 0 <= u < result@.len() ==> result@[u].0@ != room)
                    && 0 <= t < result@.len() implies arrivals(self@, room) <= result@[t].1 by {
                if !views(left_rooms@).contains(room) {
                    let u = choose|u: int| 0 <= u < result@.len() && #[trigger] result@[u].0@ == room;
                    assert(result@[u].0@ != room);
                }
                let i1 = choose|i1: int| 0 <= i1 < views(left_rooms@).len() && views(left_rooms@)[i1] == room;
                assert(left_counts@[i1] == arrivals(self@, left_rooms@[i1]@));
                assert(result@[t].0@ != left_rooms@[i1]@ && left_counts@[i1] <= result@[t].1);
            }
            assert forall|t: int| 0 <= t < result@.len() implies arrival_rooms(self@).contains(
                #[trigger] result@[t].0@,
            ) by {
                assert(result@[t].0@ == result@[t].0@);
            }
        }
        result
    }
}

impl Default for PilgrimLog {
    fn default() -> (l: Self)
        ensures
            l@ == Seq::<MoveView>::empty(),
    {
        Self::new()
    }
}

/// Logging a movement counts it as one more trip between its own two rooms,
/// and leaves the count between any other pair of rooms unchanged.
pub proof fn lemma_log_counts_trip(moves: Seq<MoveView>, m: MoveView, from: Seq<char>, to: Seq<char>)
    ensures
        trips(moves.push(m), from, to) == trips(moves, from, to) + if m.from == from && m.to == to {
            1int
        } else {
            0int
        },
{
    let s = moves.push(m);
    lemma_filter_step(s, moves.len() as int, |x: MoveView| x.from == from && x.to == to);
    assert(s.take(moves.len() + 1 as int) =~= s);
    assert(s.take(moves.len() as int) =~= moves);
}

/// Logging a movement adds one arrival to its destination, and none to any
/// other room.
pub proof fn lemma_log_counts_arrival(moves: Seq<MoveView>, m: MoveView, room: Seq<char>)
    ensures
        arrivals(moves.push(m), room) == arrivals(moves, room) + if m.to == room {
            1int
        } else {
            0int
        },
{
    let s = moves.push(m);
    lemma_arrivals_step(s, moves.len() as int, room);
    assert(s.take(moves.len() + 1 as int) =~= s);
    assert(s.take(moves.len() as int) =~= moves);
}

/// Logging a movement appends it to its agent's movements and to no other
/// agent's.
pub proof fn lemma_log_appends_movement(moves: Seq<MoveView>, m: MoveView, agent: Seq<char>)
    ensures
        movements_of(moves.push(m), agent) == if m.agent == agent {
            movements_of(moves, agent).push((m.from, m.to, m.tick))
        } else {
            movements_of(moves, agent)
        },
{
    let s = moves.push(m);
    let pred = |x: MoveView| x.agent == agent;
    let out = |x: MoveView| (x.from, x.to, x.tick);
    lemma_filter_step(s, moves.len() as int, pred);
    assert(s.take(moves.len() + 1 as int) =~= s);
    assert(s.take(moves.len() as int) =~= moves);
    if m.agent == agent {
        assert(moves.filter(pred).push(m).map_values(out) =~= moves.filter(pred).map_values(out).push(out(m)));
    }
}

/// No room is arrived in more often than there are logged movements.
pub proof fn lemma_arrivals_bounded(moves: Seq<MoveView>, room: Seq<char>)
    ensures
        arrivals(moves, room) <= moves.len(),
{
    reveal(arrivals);
    moves.lemma_filter_len(|m: MoveView| m.to == room);
}

} // verus!
