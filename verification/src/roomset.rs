//! A set of room names, each held once, in the order first added.

use vstd::prelude::*;
use crate::text::{find_string, owned, str_views, views};

verus! {

/// A set of room names.
#[derive(Debug)]
pub struct RoomSet {
    items: Vec<String>,
}

impl View for RoomSet {
    type V = Set<Seq<char>>;

    closed spec fn view(&self) -> Set<Seq<char>> {
        views(self.items@).to_set()
    }
}

/// Appending a string not yet present keeps a list free of duplicates and
/// adds it to the list's set.
proof fn lemma_push_new(old_items: Seq<Seq<char>>, s: Seq<char>)
    requires
        old_items.no_duplicates(),
        !old_items.contains(s),
    ensures
        old_items.push(s).no_duplicates(),
        old_items.push(s).to_set() == old_items.to_set().insert(s),
{
    let new_items = old_items.push(s);
    assert forall|a: int, b: int| 0 <= a < new_items.len() && 0 <= b < new_items.len() && a != b implies
        new_items[a] != new_items[b] by {
        if a < old_items.len() && b < old_items.len() {
            assert(old_items[a] != old_items[b]);
        } else if a < old_items.len() {
            assert(old_items.contains(old_items[a]));
        } else if b < old_items.len() {
            assert(old_items.contains(old_items[b]));
        }
    }
    assert forall|r: Seq<char>| new_items.to_set().contains(r) <==> old_items.to_set().insert(s).contains(r) by {
        if new_items.contains(r) {
            let i = choose|i: int| 0 <= i < new_items.len() && new_items[i] == r;
            if i < old_items.len() {
                assert(old_items[i] == r);
            }
        }
        if old_items.contains(r) {
            let i = choose|i: int| 0 <= i < old_items.len() && old_items[i] == r;
            assert(new_items[i] == r);
        }
        if r == s {
            assert(new_items[old_items.len() as int] == r);
        }
    }
    assert(new_items.to_set() =~= old_items.to_set().insert(s));
}

/// Removing the one occurrence of a string keeps a list free of duplicates
/// and removes it from the list's set.
proof fn lemma_remove_at(old_items: Seq<Seq<char>>, i: int)
    requires
        old_items.no_duplicates(),
        0 <= i < old_items.len(),
    ensures
        old_items.remove(i).no_duplicates(),
        old_items.remove(i).to_set() == old_items.to_set().remove(old_items[i]),
{
    let new_items = old_items.remove(i);
    assert forall|a: int, b: int| 0 <= a < new_items.len() && 0 <= b < new_items.len() && a != b implies
        new_items[a] != new_items[b] by {
        let a0 = if a < i { a } else { a + 1 };
        let b0 = if b < i { b } else { b + 1 };
        assert(old_items[a0] != old_items[b0]);
    }
    assert forall|r: Seq<char>| new_items.to_set().contains(r) <==> old_items.to_set().remove(old_items[i]).contains(r) by {
        if new_items.contains(r) {
            let a = choose|a: int| 0 <= a < new_items.len() && new_items[a] == r;
            let a0 = if a < i { a } else { a + 1 };
            assert(old_items[a0] == r);
            assert(old_items[a0] != old_items[i]);
        }
        if old_items.contains(r) && r != old_items[i] {
            let a0 = choose|a0: int| 0 <= a0 < old_items.len() && old_items[a0] == r;
            let a = if a0 < i { a0 } else { a0 - 1 };
            assert(new_items[a] == r);
        }
    }
    assert(new_items.to_set() =~= old_items.to_set().remove(old_items[i]));
}

impl RoomSet {
    #[verifier::type_invariant]
    spec fn inv(&self) -> bool {
        views(self.items@).no_duplicates()
    }

    pub fn new() -> (r: Self)
        ensures
            r@ == Set::<Seq<char>>::empty(),
    {
        let r = RoomSet { items: Vec::new() };
        assert(r@ =~= Set::<Seq<char>>::empty());
        r
    }

    pub fn contains(&self, room: &str) -> (r: bool)
        ensures
            r == self@.contains(room@),
    {
        find_string(&self.items, room).is_some()
    }

    pub fn insert(&mut self, room: &str)
        ensures
            final(self)@ == old(self)@.insert(room@),
    {
        proof { use_type_invariant(&*self); }
        if find_string(&self.items, room).is_none() {
            let mut items: Vec<String> = Vec::new();
            std::mem::swap(&mut items, &mut self.items);
            let ghost old_views = views(items@);
            items.push(owned(room));
            proof {
                assert(views(items@) =~= old_views.push(room@));
                lemma_push_new(old_views, room@);
            }
            self.items = items;
        } else {
            assert(old(self)@.insert(room@) =~= old(self)@);
        }
    }

    pub fn remove(&mut self, room: &str)
        ensures
            final(self)@ == old(self)@.remove(room@),
    {
        proof { use_type_invariant(&*self); }
        match find_string(&self.items, room) {
            Some(i) => {
                let mut items: Vec<String> = Vec::new();
                std::mem::swap(&mut items, &mut self.items);
                let ghost old_views = views(items@);
                let _ = items.remove(i);
                proof {
                    assert(views(items@) =~= old_views.remove(i as int));
                    lemma_remove_at(old_views, i as int);
                }
                self.items = items;
            },
            None => {
                assert(old(self)@.remove(room@) =~= old(self)@);
            },
        }
    }

    pub fn len(&self) -> (r: usize)
        ensures
            r == self@.len(),
            self@.finite(),
    {
        proof {
            use_type_invariant(self);
            views(self.items@).unique_seq_to_set();
        }
        self.items.len()
    }

    /// Whether both sets hold the same rooms.
    pub fn same_rooms(&self, other: &RoomSet) -> (r: bool)
        ensures
            r == (self@ == other@),
    {
        proof {
            use_type_invariant(self);
            use_type_invariant(other);
            views(self.items@).unique_seq_to_set();
            views(other.items@).unique_seq_to_set();
            vstd::seq_lib::seq_to_set_is_finite(views(self.items@));
            vstd::seq_lib::seq_to_set_is_finite(views(other.items@));
        }
        if self.items.len() != other.items.len() {
            return false;
        }
        let n = self.items.len();
        let mut i: usize = 0;
        while i < n
            invariant
                n == self.items@.len(),
                i <= n,
                forall|j: int| 0 <= j < i ==> other@.contains(#[trigger] views(self.items@)[j]),
            decreases n - i,
        {
            if !other.contains(self.items[i].as_str()) {
                assert(self@.contains(views(self.items@)[i as int]));
                return false;
            }
            i = i + 1;
        }
        proof {
            assert forall|x: Seq<char>| self@.contains(x) implies other@.contains(x) by {
                let j = choose|j: int| 0 <= j < views(self.items@).len() && views(self.items@)[j] == x;
            }
            vstd::set_lib::lemma_subset_equality(self@, other@);
        }
        true
    }

    /// The rooms of the set, each once.
    pub fn as_strs(&self) -> (r: Vec<&str>)
        ensures
            str_views(r@).no_duplicates(),
            str_views(r@).to_set() == self@,
    {
        proof { use_type_invariant(self); }
        let mut r: Vec<&str> = Vec::new();
        let n = self.items.len();
        let mut i: usize = 0;
        while i < n
            invariant
                n == self.items@.len(),
                i <= n,
                str_views(r@) == views(self.items@).take(i as int),
            decreases n - i,
        {
            let ghost before = r@;
            r.push(self.items[i].as_str());
            assert(str_views(r@) =~= str_views(before).push(views(self.items@)[i as int]));
            assert(views(self.items@).take(i + 1) =~= views(self.items@).take(i as int).push(
                views(self.items@)[i as int],
            ));
            i = i + 1;
        }
        assert(views(self.items@).take(n as int) =~= views(self.items@));
        r
    }
}

impl Clone for RoomSet {
    fn clone(&self) -> (r: Self)
        ensures
            r@ == self@,
    {
        proof { use_type_invariant(self); }
        let mut items: Vec<String> = Vec::new();
        let n = self.items.len();
        let mut i: usize = 0;
        while i < n
            invariant
                n == self.items@.len(),
                i <= n,
                views(items@) == views(self.items@).take(i as int),
            decreases n - i,
        {
            let c = self.items[i].clone();
            let ghost before = items@;
            items.push(c);
            assert(views(items@) =~= views(before).push(views(self.items@)[i as int]));
            assert(views(self.items@).take(i + 1) =~= views(self.items@).take(i as int).push(
                views(self.items@)[i as int],
            ));
            i = i + 1;
        }
        assert(views(self.items@).take(n as int) =~= views(self.items@));
        RoomSet { items }
    }
}

} // verus!
