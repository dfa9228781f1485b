//! The route guide: named routes and positional navigation along them.

use vstd::prelude::*;
use crate::text::{
    find_string, first_position, lemma_first_position, lemma_first_position_exists, opt_str_view, owned,
    str_eq, str_views, views,
};

verus! {

/// The room after the first visit of `current` on `route`, if any.
pub open spec fn next_on(route: Seq<Seq<char>>, current: Seq<char>) -> Option<Seq<char>> {
    match first_position(route, current) {
        Some(i) => if i + 1 < route.len() {
            Some(route[i + 1])
        } else {
            None
        },
        None => None,
    }
}

/// The room before the first visit of `current` on `route`, if any.
pub open spec fn prev_on(route: Seq<Seq<char>>, current: Seq<char>) -> Option<Seq<char>> {
    match first_position(route, current) {
        Some(i) => if i > 0 {
            Some(route[i - 1])
        } else {
            None
        },
        None => None,
    }
}

/// How many stops follow the first visit of `current` on `route`.
pub open spec fn steps_after(route: Seq<Seq<char>>, current: Seq<char>) -> Option<int> {
    match first_position(route, current) {
        Some(i) => Some(route.len() - i - 1),
        None => None,
    }
}

/// `route` holds both rooms in order: some visit of `from` comes before
/// some visit of `to`.
pub open spec fn leads(route: Seq<Seq<char>>, from: Seq<char>, to: Seq<char>) -> bool {
    exists|i: int, j: int| 0 <= i < j < route.len() && #[trigger] route[i] == from && #[trigger] route[j] == to
}

/// The registered route of that name, if any.
pub open spec fn lookup(routes: Map<Seq<char>, Seq<Seq<char>>>, name: Seq<char>) -> Option<Seq<Seq<char>>> {
    if routes.dom().contains(name) {
        Some(routes[name])
    } else {
        None
    }
}

type Entries = Seq<(Seq<char>, Seq<Seq<char>>)>;

/// The map that a list of (name, rooms) entries describes, later entries
/// taking precedence.
spec fn map_of(s: Entries) -> Map<Seq<char>, Seq<Seq<char>>>
    decreases s.len(),
{
    if s.len() == 0 {
        Map::empty()
    } else {
        map_of(s.drop_last()).insert(s.last().0, s.last().1)
    }
}

/// No two entries share a name.
spec fn names_distinct(s: Entries) -> bool {
    forall|i: int, j: int| 0 <= i < s.len() && 0 <= j < s.len() && i != j ==> s[i].0 != s[j].0
}

proof fn lemma_map_of(s: Entries)
    requires
        names_distinct(s),
    ensures
        forall|k: Seq<char>|
            map_of(s).dom().contains(k) <==> exists|i: int| 0 <= i < s.len() && #[trigger] s[i].0 == k,
        forall|i: int| 0 <= i < s.len() ==> map_of(s)[#[trigger] s[i].0] == s[i].1,
        map_of(s).dom().finite(),
        map_of(s).dom().len() == s.len(),
    decreases s.len(),
{
    if s.len() > 0 {
        let s1 = s.drop_last();
        let last = s.last();
        assert(names_distinct(s1)) by {
            assert forall|i: int, j: int| 0 <= i < s1.len() && 0 <= j < s1.len() && i != j implies s1[i].0
                != s1[j].0 by {
                assert(s[i] == s1[i] && s[j] == s1[j]);
            }
        }
        lemma_map_of(s1);
        assert(!map_of(s1).dom().contains(last.0)) by {
            if map_of(s1).dom().contains(last.0) {
                let i = choose|i: int| 0 <= i < s1.len() && #[trigger] s1[i].0 == last.0;
                assert(s[i].0 == s[s.len() - 1].0);
            }
        }
        assert forall|k: Seq<char>|
            map_of(s).dom().contains(k) <==> exists|i: int| 0 <= i < s.len() && #[trigger] s[i].0 == k by {
            if map_of(s).dom().contains(k) && k != last.0 {
                let i = choose|i: int| 0 <= i < s1.len() && #[trigger] s1[i].0 == k;
                assert(s[i].0 == k);
            }
            if exists|i: int| 0 <= i < s.len() && #[trigger] s[i].0 == k {
                let i = choose|i: int| 0 <= i < s.len() && #[trigger] s[i].0 == k;
                if i < s.len() - 1 {
                    assert(s1[i].0 == k);
                }
            }
        }
        assert forall|i: int| 0 <= i < s.len() implies map_of(s)[#[trigger] s[i].0] == s[i].1 by {
            if i < s.len() - 1 {
                assert(s1[i] == s[i]);
                assert(s[i].0 != last.0);
            }
        }
    }
}

/// Replacing the rooms of an existing name changes only that name's rooms.
proof fn lemma_map_of_update(s: Entries, i: int, rooms: Seq<Seq<char>>)
    requires
        names_distinct(s),
        0 <= i < s.len(),
    ensures
        names_distinct(s.update(i, (s[i].0, rooms))),
        map_of(s.update(i, (s[i].0, rooms))) == map_of(s).insert(s[i].0, rooms),
{
    let s2 = s.update(i, (s[i].0, rooms));
    assert(names_distinct(s2)) by {
        assert forall|a: int, b: int| 0 <= a < s2.len() && 0 <= b < s2.len() && a != b implies s2[a].0
            != s2[b].0 by {
            assert(s2[a].0 == s[a].0 && s2[b].0 == s[b].0);
        }
    }
    lemma_map_of(s);
    lemma_map_of(s2);
    let m2 = map_of(s2);
    let m1 = map_of(s).insert(s[i].0, rooms);
    assert forall|k: Seq<char>| m2.dom().contains(k) <==> m1.dom().contains(k) by {
        if m2.dom().contains(k) {
            let j = choose|j: int| 0 <= j < s2.len() && #[trigger] s2[j].0 == k;
            assert(s[j].0 == k);
        }
        if m1.dom().contains(k) && k != s[i].0 {
            let j = choose|j: int| 0 <= j < s.len() && #[trigger] s[j].0 == k;
            assert(s2[j].0 == k);
        }
        if k == s[i].0 {
            assert(s2[i].0 == k);
        }
    }
    assert forall|k: Seq<char>| m2.dom().contains(k) implies m2[k] == m1[k] by {
        let j = choose|j: int| 0 <= j < s2.len() && #[trigger] s2[j].0 == k;
        if j != i {
            assert(s2[j] == s[j]);
            assert(s[j].0 != s[i].0);
        }
    }
    assert(m2 =~= m1);
}

/// Assists navigation on known routes.
#[derive(Debug)]
pub struct PilgrimGuide {
    /// Known routes: name → ordered rooms, each name once.
    routes: Vec<(String, Vec<String>)>,
}

impl View for PilgrimGuide {
    type V = Map<Seq<char>, Seq<Seq<char>>>;

    closed spec fn view(&self) -> Map<Seq<char>, Seq<Seq<char>>> {
        map_of(self.entries())
    }
}

/// The (name, rooms) entries of a route list.
spec fn entries_of(v: Seq<(String, Vec<String>)>) -> Entries {
    v.map_values(|e: (String, Vec<String>)| (e.0@, views(e.1@)))
}

impl PilgrimGuide {
    spec fn entries(&self) -> Entries {
        entries_of(self.routes@)
    }

    #[verifier::type_invariant]
    spec fn inv(&self) -> bool {
        names_distinct(self.entries())
    }

    pub fn new() -> (g: Self)
        ensures
            g@ == Map::<Seq<char>, Seq<Seq<char>>>::empty(),
    {
        let g = PilgrimGuide { routes: Vec::new() };
        assert(g.entries() =~= Seq::<(Seq<char>, Seq<Seq<char>>)>::empty());
        g
    }

    /// The index of the entry of that name, if any.
    fn index_of(&self, name: &str) -> (r: Option<usize>)
        ensures
            r matches Some(i) ==> i < self.routes@.len() && self.entries()[i as int].0 == name@,
            r is None ==> forall|i: int| 0 <= i < self.routes@.len() ==> #[trigger] self.entries()[i].0
                != name@,
    {
        let n = self.routes.len();
        let mut i: usize = 0;
        while i < n
            invariant
                n == self.routes@.len(),
                i <= n,
                forall|j: int| 0 <= j < i ==> #[trigger] self.entries()[j].0 != name@,
            decreases n - i,
        {
            if str_eq(self.routes[i].0.as_str(), name) {
                return Some(i);
            }
            i = i + 1;
        }
        None
    }

    /// The rooms of the route of that name, if registered.
    fn rooms_named(&self, name: &str) -> (r: Option<&Vec<String>>)
        ensures
            match r {
                Some(v) => lookup(self@, name@) == Some(views(v@)),
                None => lookup(self@, name@) is None,
            },
    {
        proof {
            use_type_invariant(self);
            lemma_map_of(self.entries());
        }
        match self.index_of(name) {
            Some(i) => {
                assert(self.entries()[i as int].0 == name@);
                Some(&self.routes[i].1)
            },
            None => {
                assert(!self@.dom().contains(name@));
                None
            },
        }
    }

    /// Register a named route, replacing any route of the same name.
    pub fn register_route(&mut self, name: &str, rooms: Vec<String>)
        ensures
            final(self)@ == old(self)@.insert(name@, views(rooms@)),
    {
        proof { use_type_invariant(&*self); }
        let ghost old_entries = self.entries();
        let ghost rv = views(rooms@);
        let found = self.index_of(name);
        let mut routes: Vec<(String, Vec<String>)> = Vec::new();
        std::mem::swap(&mut routes, &mut self.routes);
        assert(routes@ == old(self).routes@);
        match found {
            Some(i) => {
                proof { lemma_map_of_update(old_entries, i as int, rv); }
                routes.set(i, (owned(name), rooms));
                assert(entries_of(routes@) =~= old_entries.update(i as int, (old_entries[i as int].0, rv)));
            },
            None => {
                routes.push((owned(name), rooms));
                assert(entries_of(routes@) =~= old_entries.push((name@, rv)));
                assert(entries_of(routes@).drop_last() =~= old_entries);
                assert(names_distinct(entries_of(routes@))) by {
                    let e = entries_of(routes@);
                    assert forall|a: int, b: int| 0 <= a < e.len() && 0 <= b < e.len() && a != b implies e[a].0
                        != e[b].0 by {
                        if a < old_entries.len() && b < old_entries.len() {
                            assert(old_entries[a].0 != old_entries[b].0);
                        } else if a < old_entries.len() {
                            assert(old_entries[a].0 != name@);
                        } else if b < old_entries.len() {
                            assert(old_entries[b].0 != name@);
                        }
                    }
                }
            },
        }
        self.routes = routes;
    }

    /// Get the next room after `current` on a named route.
    pub fn next_room(&self, route_name: &str, current: &str) -> (r: Option<&str>)
        ensures
            opt_str_view(r) == match lookup(self@, route_name@) {
                Some(route) => next_on(route, current@),
                None => None,
            },
    {
        let route = match self.rooms_named(route_name) {
            Some(route) => route,
            None => return None,
        };
        let idx = match find_string(route, current) {
            Some(idx) => idx,
            None => return None,
        };
        let ghost rv = views(route@);
        assert(idx < rv.len());
        assert(first_position(rv, current@) == Some(idx as int));
        let len = route.len();
        assert(rv.len() == len);
        if idx + 1 < len {
            let s = route[idx + 1].as_str();
            assert(s@ == rv[idx + 1]);
            assert(next_on(rv, current@) == Some(rv[idx + 1]));
            Some(s)
        } else {
            assert(next_on(rv, current@) is None);
            None
        }
    }

    /// Get the previous room before `current` on a named route.
    pub fn prev_room(&self, route_name: &str, current: &str) -> (r: Option<&str>)
        ensures
            opt_str_view(r) == match lookup(self@, route_name@) {
                Some(route) => prev_on(route, current@),
                None => None,
            },
    {
        let route = match self.rooms_named(route_name) {
            Some(route) => route,
            None => return None,
        };
        let idx = match find_string(route, current) {
            Some(idx) => idx,
            None => return None,
        };
        if idx > 0 {
            Some(route[idx - 1].as_str())
        } else {
            None
        }
    }

    /// How many steps remain from `current` to the end of the route.
    pub fn steps_remaining(&self, route_name: &str, current: &str) -> (r: Option<usize>)
        ensures
            match r {
                Some(k) => lookup(self@, route_name@) matches Some(route) && steps_after(route, current@)
                    == Some(k as int),
                None => lookup(self@, route_name@) matches Some(route) ==> steps_after(route, current@) is None,
            },
    {
        let route = match self.rooms_named(route_name) {
            Some(route) => route,
            None => return None,
        };
        let idx = match find_string(route, current) {
            Some(idx) => idx,
            None => return None,
        };
        Some(route.len() - idx - 1)
    }

    /// Find all routes that pass through a room (each name once).
    pub fn routes_through(&self, room: &str) -> (r: Vec<&str>)
        ensures
            str_views(r@).no_duplicates(),
            forall|name: Seq<char>|
                str_views(r@).contains(name) <==> (self@.dom().contains(name) && self@[name].contains(room@)),
            r@.len() <= self@.len(),
    {
        proof {
            use_type_invariant(self);
            lemma_map_of(self.entries());
        }
        let mut r: Vec<&str> = Vec::new();
        let n = self.routes.len();
        let mut i: usize = 0;
        while i < n
            invariant
                n == self.routes@.len(),
                i <= n,
                names_distinct(self.entries()),
                forall|k: Seq<char>|
                    self@.dom().contains(k) <==> exists|j: int| 0 <= j < n && #[trigger] self.entries()[j].0 == k,
                forall|j: int| 0 <= j < n ==> self@[#[trigger] self.entries()[j].0] == self.entries()[j].1,
                str_views(r@).no_duplicates(),
                forall|name: Seq<char>|
                    str_views(r@).contains(name) <==> exists|j: int|
                        0 <= j < i && #[trigger] self.entries()[j].0 == name && self.entries()[j].1.contains(room@),
            decreases n - i,
        {
            let ghost before = r@;
            if find_string(&self.routes[i].1, room).is_some() {
                r.push(self.routes[i].0.as_str());
                proof {
                    let e = self.entries();
                    assert(str_views(r@) =~= str_views(before).push(e[i as int].0));
                    assert forall|a: int, b: int|
                        0 <= a < str_views(r@).len() && 0 <= b < str_views(r@).len() && a != b implies
                        str_views(r@)[a] != str_views(r@)[b] by {
                        if a < before.len() && b < before.len() {
                            assert(str_views(before)[a] != str_views(before)[b]);
                        } else if a < before.len() {
                            assert(str_views(before).contains(str_views(before)[a]));
                            let j = choose|j: int| 0 <= j < i && #[trigger] e[j].0 == str_views(before)[a]
                                && e[j].1.contains(room@);
                            assert(e[j].0 != e[i as int].0);
                        } else if b < before.len() {
                            assert(str_views(before).contains(str_views(before)[b]));
                            let j = choose|j: int| 0 <= j < i && #[trigger] e[j].0 == str_views(before)[b]
                                && e[j].1.contains(room@);
                            assert(e[j].0 != e[i as int].0);
                        }
                    }
                    assert forall|name: Seq<char>|
                        str_views(r@).contains(name) <==> exists|j: int|
                            0 <= j < i + 1 && #[trigger] e[j].0 == name && e[j].1.contains(room@) by {
                        if str_views(r@).contains(name) {
                            let a = choose|a: int| 0 <= a < str_views(r@).len() && str_views(r@)[a] == name;
                            if a < before.len() {
                                assert(str_views(before)[a] == name);
                                assert(str_views(before).contains(name));
                            } else {
                                assert(e[i as int].0 == name);
                            }
                        }
                        if exists|j: int| 0 <= j < i + 1 && #[trigger] e[j].0 == name && e[j].1.contains(room@) {
                            let j = choose|j: int| 0 <= j < i + 1 && #[trigger] e[j].0 == name && e[j].1.contains(room@);
                            if j < i {
                                assert(str_views(before).contains(name));
                                let a = choose|a: int| 0 <= a < str_views(before).len() && str_views(before)[a] == name;
                                assert(str_views(r@)[a] == name);
                            } else {
                                assert(str_views(r@)[before.len() as int] == name);
                            }
                        }
                    }
                }
            } else {
                proof {
                    let e = self.entries();
                    assert(!e[i as int].1.contains(room@));
                    assert forall|name: Seq<char>|
                        str_views(r@).contains(name) <==> exists|j: int|
                            0 <= j < i + 1 && #[trigger] e[j].0 == name && e[j].1.contains(room@) by {
                        if exists|j: int| 0 <= j < i + 1 && #[trigger] e[j].0 == name && e[j].1.contains(room@) {
                            let j = choose|j: int| 0 <= j < i + 1 && #[trigger] e[j].0 == name && e[j].1.contains(room@);
                            assert(j < i);
                        }
                    }
                }
            }
            i = i + 1;
        }
        proof {
            let e = self.entries();
            assert forall|name: Seq<char>|
                str_views(r@).contains(name) <==> (self@.dom().contains(name) && self@[name].contains(room@)) by {
                if self@.dom().contains(name) && self@[name].contains(room@) {
                    let j = choose|j: int| 0 <= j < n && #[trigger] e[j].0 == name;
                    assert(self@[e[j].0] == e[j].1);
                }
                if str_views(r@).contains(name) {
                    let j = choose|j: int| 0 <= j < n && #[trigger] e[j].0 == name && e[j].1.contains(room@);
                    assert(self@[e[j].0] == e[j].1);
                }
            }
            str_views(r@).unique_seq_to_set();
            assert(str_views(r@).to_set().subset_of(self@.dom()));
            vstd::set_lib::lemma_len_subset(str_views(r@).to_set(), self@.dom());
        }
        r
    }

    /// Find a registered route holding both rooms in order (some visit of
    /// `from` before some visit of `to`), if any.
    pub fn find_route(&self, from: &str, to: &str) -> (r: Option<&str>)
        ensures
            match r {
                Some(name) => self@.dom().contains(name@) && leads(self@[name@], from@, to@),
                None => forall|name: Seq<char>|
                    self@.dom().contains(name) ==> !leads(#[trigger] self@[name], from@, to@),
            },
    {
        proof { use_type_invariant(self); }
        let n = self.routes.len();
        let mut i: usize = 0;
        while i < n
            invariant
                n == self.routes@.len(),
                i <= n,
                names_distinct(self.entries()),
                forall|j: int| 0 <= j < i ==> !leads(#[trigger] self.entries()[j].1, from@, to@),
            decreases n - i,
        {
            let rooms = &self.routes[i].1;
            let ghost route = self.entries()[i as int].1;
            assert(views(rooms@) == route);
            let found = visits_in_order(rooms, from, to);
            if found {
                proof {
                    lemma_map_of(self.entries());
                    assert(self@[self.entries()[i as int].0] == route);
                }
                return Some(self.routes[i].0.as_str());
            }
            i = i + 1;
        }
        proof {
            lemma_map_of(self.entries());
            assert forall|name: Seq<char>| self@.dom().contains(name) implies !leads(
                #[trigger] self@[name],
                from@,
                to@,
            ) by {
                let j = choose|j: int| 0 <= j < n && #[trigger] self.entries()[j].0 == name;
                assert(self@[self.entries()[j].0] == self.entries()[j].1);
            }
        }
        None
    }

    /// The number of registered routes.
    pub fn route_count(&self) -> (r: usize)
        ensures
            r == self@.len(),
            self@.dom().finite(),
    {
        proof {
            use_type_invariant(self);
            lemma_map_of(self.entries());
        }
        self.routes.len()
    }
}

/// Whether some visit of `from` comes before some visit of `to` on `rooms`.
fn visits_in_order(rooms: &Vec<String>, from: &str, to: &str) -> (r: bool)
    ensures
        r == leads(views(rooms@), from@, to@),
{
    let ghost route = views(rooms@);
    match find_string(rooms, from) {
        Some(a) => {
            let n = rooms.len();
            let mut j: usize = a + 1;
            while j < n
                invariant
                    n == rooms@.len(),
                    route == views(rooms@),
                    a < j <= n,
                    route[a as int] == from@,
                    forall|k: int| 0 <= k < a ==> route[k] != from@,
                    forall|k: int| a < k < j ==> route[k] != to@,
                decreases n - j,
            {
                if str_eq(rooms[j].as_str(), to) {
                    assert(route[a as int] == from@ && route[j as int] == to@);
                    return true;
                }
                j = j + 1;
            }
            assert(!leads(route, from@, to@)) by {
                if leads(route, from@, to@) {
                    let (i, k) = choose|i: int, k: int|
                        0 <= i < k < route.len() && #[trigger] route[i] == from@ && #[trigger] route[k] == to@;
                    assert(route[k] != to@);
                }
            }
            false
        },
        None => {
            assert(!leads(route, from@, to@)) by {
                if leads(route, from@, to@) {
                    let (i, k) = choose|i: int, k: int|
                        0 <= i < k < route.len() && #[trigger] route[i] == from@ && #[trigger] route[k] == to@;
                    assert(route.contains(from@));
                }
            }
            false
        },
    }
}

/// A copy of a list of strings.
fn copy_strings(v: &Vec<String>) -> (r: Vec<String>)
    ensures
        views(r@) == views(v@),
{
    let mut r: Vec<String> = Vec::new();
    let n = v.len();
    let mut i: usize = 0;
    while i < n
        invariant
            n == v@.len(),
            i <= n,
            views(r@) == views(v@).take(i as int),
        decreases n - i,
    {
        let c = v[i].clone();
        assert(c@ == views(v@)[i as int]);
        let ghost before = r@;
        r.push(c);
        assert(views(r@) =~= views(before).push(c@));
        assert(views(v@).take(i + 1) =~= views(v@).take(i as int).push(views(v@)[i as int]));
        i = i + 1;
    }
    assert(views(v@).take(n as int) =~= views(v@));
    r
}

impl Clone for PilgrimGuide {
    fn clone(&self) -> (g: Self)
        ensures
            g@ == self@,
    {
        proof { use_type_invariant(self); }
        let mut routes: Vec<(String, Vec<String>)> = Vec::new();
        let n = self.routes.len();
        let mut i: usize = 0;
        while i < n
            invariant
                n == self.routes@.len(),
                i <= n,
                entries_of(routes@) == self.entries().take(i as int),
            decreases n - i,
        {
            let name = self.routes[i].0.clone();
            let rooms = copy_strings(&self.routes[i].1);
            assert(name@ == self.entries()[i as int].0);
            assert(views(rooms@) == self.entries()[i as int].1);
            let ghost before = routes@;
            routes.push((name, rooms));
            assert(entries_of(routes@) =~= entries_of(before).push(self.entries()[i as int]));
            assert(self.entries().take(i + 1) =~= self.entries().take(i as int).push(self.entries()[i as int]));
            i = i + 1;
        }
        assert(self.entries().take(n as int) =~= self.entries());
        assert(names_distinct(entries_of(routes@)));
        PilgrimGuide { routes }
    }
}

impl Default for PilgrimGuide {
    fn default() -> (g: Self)
        ensures
            g@ == Map::<Seq<char>, Seq<Seq<char>>>::empty(),
    {
        Self::new()
    }
}

/// Registering a route makes the guide answer with it for that name, and
/// leaves every other name's route as it was.
pub proof fn lemma_register_then_lookup(
    routes: Map<Seq<char>, Seq<Seq<char>>>,
    name: Seq<char>,
    rooms: Seq<Seq<char>>,
    other: Seq<char>,
)
    ensures
        lookup(routes.insert(name, rooms), name) == Some(rooms),
        other != name ==> lookup(routes.insert(name, rooms), other) == lookup(routes, other),
{
}

/// On a route that visits no room twice, going forward and then back
/// returns to the start.
pub proof fn lemma_next_then_prev(route: Seq<Seq<char>>, a: Seq<char>, b: Seq<char>)
    requires
        route.no_duplicates(),
        next_on(route, a) == Some(b),
    ensures
        prev_on(route, b) == Some(a),
{
    assert(route.contains(a));
    lemma_first_position_exists(route, a);
    let i = first_position(route, a).unwrap();
    assert(route[i + 1] == b);
    assert forall|j: int| 0 <= j < i + 1 implies route[j] != b by {
        assert(route[j] != route[i + 1]);
    }
    lemma_first_position(route, b, i + 1);
}

/// No steps remain exactly at the last stop: the current room is on the
/// route and has no next room.
pub proof fn lemma_no_steps_at_end(route: Seq<Seq<char>>, current: Seq<char>)
    ensures
        (steps_after(route, current) == Some(0int)) <==> (route.contains(current) && next_on(route, current)
            is None),
{
    if route.contains(current) {
        lemma_first_position_exists(route, current);
    }
}

/// On a route that visits no room twice, holding two rooms in order is
/// comparing where each is visited, and no room comes before itself.
pub proof fn lemma_leads_without_repeats(route: Seq<Seq<char>>, from: Seq<char>, to: Seq<char>)
    requires
        route.no_duplicates(),
    ensures
        leads(route, from, to) == match (first_position(route, from), first_position(route, to)) {
            (Some(i), Some(j)) => i < j,
            _ => false,
        },
        !leads(route, from, from),
{
    if route.contains(from) {
        lemma_first_position_exists(route, from);
    }
    if route.contains(to) {
        lemma_first_position_exists(route, to);
    }
    if leads(route, from, to) {
        let (i, j) = choose|i: int, j: int|
            0 <= i < j < route.len() && #[trigger] route[i] == from && #[trigger] route[j] == to;
        assert(route.contains(from) && route.contains(to));
        let a = first_position(route, from).unwrap();
        let b = first_position(route, to).unwrap();
        assert(a == i) by {
            if a != i {
                assert(route[a] != route[i]);
            }
        }
        assert(b == j) by {
            if b != j {
                assert(route[b] != route[j]);
            }
        }
    }
    if let (Some(a), Some(b)) = (first_position(route, from), first_position(route, to)) {
        if a < b {
            assert(route[a] == from && route[b] == to);
        }
    }
    if leads(route, from, from) {
        let (i, j) = choose|i: int, j: int|
            0 <= i < j < route.len() && #[trigger] route[i] == from && #[trigger] route[j] == from;
        assert(route[i] != route[j]);
    }
}

/// On any route, repeated rooms included, the next room is the one right
/// after the first visit of the current room, and there is none when that
/// visit is the last stop.
pub proof fn lemma_next_after_first_visit(route: Seq<Seq<char>>, current: Seq<char>, i: int)
    requires
        0 <= i < route.len(),
        route[i] == current,
        forall|j: int| 0 <= j < i ==> route[j] != current,
    ensures
        i + 1 < route.len() ==> next_on(route, current) == Some(route[i + 1]),
        i + 1 == route.len() ==> next_on(route, current) is None,
{
    lemma_first_position(route, current, i);
}

/// On any route, repeated rooms included, the previous room is the one right
/// before the first visit of the current room, and there is none when that
/// visit is the first stop.
pub proof fn lemma_prev_before_first_visit(route: Seq<Seq<char>>, current: Seq<char>, i: int)
    requires
        0 <= i < route.len(),
        route[i] == current,
        forall|j: int| 0 <= j < i ==> route[j] != current,
    ensures
        i > 0 ==> prev_on(route, current) == Some(route[i - 1]),
        i == 0 ==> prev_on(route, current) is None,
{
    lemma_first_position(route, current, i);
}

/// The steps remaining from a room are the stops after its first visit: with
/// the first visit at index `i`, there are `route.len() - i - 1` of them.
pub proof fn lemma_steps_after_first_visit(route: Seq<Seq<char>>, current: Seq<char>, i: int)
    requires
        0 <= i < route.len(),
        route[i] == current,
        forall|j: int| 0 <= j < i ==> route[j] != current,
    ensures
        steps_after(route, current) == Some(route.len() - i - 1),
{
    lemma_first_position(route, current, i);
}

/// No step remains from a room not on the route, nor is there a next or a
/// previous room.
pub proof fn lemma_off_route(route: Seq<Seq<char>>, current: Seq<char>)
    requires
        !route.contains(current),
    ensures
        steps_after(route, current) is None,
        next_on(route, current) is None,
        prev_on(route, current) is None,
{
}

/// On a route that visits no room twice, moving on to the next room leaves
/// exactly one step fewer.
pub proof fn lemma_next_takes_one_step(route: Seq<Seq<char>>, a: Seq<char>, b: Seq<char>)
    requires
        route.no_duplicates(),
        next_on(route, a) == Some(b),
    ensures
        steps_after(route, a) matches Some(sa) && steps_after(route, b) == Some(sa - 1),
{
    assert(route.contains(a));
    lemma_first_position_exists(route, a);
    let i = first_position(route, a).unwrap();
    assert(route[i + 1] == b);
    assert forall|j: int| 0 <= j < i + 1 implies route[j] != b by {
        assert(route[j] != route[i + 1]);
    }
    lemma_first_position(route, b, i + 1);
}

} // verus!
