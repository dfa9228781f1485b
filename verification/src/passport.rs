//! Passports: which rooms an agent may enter.

use vstd::prelude::*;
use crate::roomset::RoomSet;
use crate::text::{owned, str_views};

verus! {

/// What a passport holds: its agent, the stamped (granted) rooms and the
/// denied rooms.
pub struct PassportView {
    pub agent: Seq<char>,
    pub stamps: Set<Seq<char>>,
    pub denied: Set<Seq<char>>,
}

impl PassportView {
    /// The passport after stamping `room`: granted, and no longer denied.
    pub open spec fn stamp(self, room: Seq<char>) -> PassportView {
        PassportView { stamps: self.stamps.insert(room), denied: self.denied.remove(room), ..self }
    }

    /// The passport after denying `room`: denied, and no longer stamped.
    pub open spec fn deny(self, room: Seq<char>) -> PassportView {
        PassportView { stamps: self.stamps.remove(room), denied: self.denied.insert(room), ..self }
    }

    /// The passport after revoking `room`: neither stamped nor denied.
    pub open spec fn revoke(self, room: Seq<char>) -> PassportView {
        PassportView { stamps: self.stamps.remove(room), denied: self.denied.remove(room), ..self }
    }

    /// The agent may enter a room that is stamped and not denied.
    pub open spec fn can_enter(self, room: Seq<char>) -> bool {
        self.stamps.contains(room) && !self.denied.contains(room)
    }

    /// No room is both stamped and denied.
    pub open spec fn wf(self) -> bool {
        self.stamps.disjoint(self.denied)
    }
}

/// Credentials for crossing room boundaries.
#[derive(Clone, Debug)]
pub struct PilgrimPassport {
    pub agent: String,
    /// Rooms this agent is authorized to enter.
    stamps: RoomSet,
    /// Rooms explicitly denied.
    denied: RoomSet,
}

impl View for PilgrimPassport {
    type V = PassportView;

    closed spec fn view(&self) -> PassportView {
        PassportView { agent: self.agent@, stamps: self.stamps@, denied: self.denied@ }
    }
}

impl PilgrimPassport {
    pub fn new(agent: &str) -> (p: Self)
        ensures
            p@ == (PassportView { agent: agent@, stamps: Set::empty(), denied: Set::empty() }),
            p@.wf(),
    {
        PilgrimPassport { agent: owned(agent), stamps: RoomSet::new(), denied: RoomSet::new() }
    }

    /// Grant access to a room (stamp the passport); a stamp overrides a denial.
    pub fn stamp(&mut self, room: &str)
        ensures
            final(self)@ == old(self)@.stamp(room@),
    {
        self.stamps.insert(room);
        self.denied.remove(room);
    }

    /// Deny access to a room; a denial withdraws a stamp.
    pub fn deny(&mut self, room: &str)
        ensures
            final(self)@ == old(self)@.deny(room@),
    {
        self.denied.insert(room);
        self.stamps.remove(room);
    }

    /// The agent holding the passport.
    pub fn agent(&self) -> (r: &str)
        ensures
            r@ == self@.agent,
    {
        self.agent.as_str()
    }

    /// Check if the agent can enter a room.
    pub fn can_enter(&self, room: &str) -> (r: bool)
        ensures
            r == self@.can_enter(room@),
    {
        self.stamps.contains(room) && !self.denied.contains(room)
    }

    /// List all authorized rooms, each once.
    pub fn authorized_rooms(&self) -> (r: Vec<&str>)
        ensures
            str_views(r@).no_duplicates(),
            str_views(r@).to_set() == self@.stamps,
    {
        self.stamps.as_strs()
    }

    /// Number of stamps.
    pub fn stamp_count(&self) -> (r: usize)
        ensures
            r == self@.stamps.len(),
    {
        self.stamps.len()
    }

    /// Revoke access (remove both stamp and denial).
    pub fn revoke(&mut self, room: &str)
        ensures
            final(self)@ == old(self)@.revoke(room@),
    {
        self.stamps.remove(room);
        self.denied.remove(room);
    }
}

impl PartialEq for PilgrimPassport {
    /// Two passports are equal when they name the same agent and hold the
    /// same stamped and the same denied rooms.
    fn eq(&self, other: &Self) -> (r: bool) {
        self.agent == other.agent && self.stamps.same_rooms(&other.stamps) && self.denied.same_rooms(
            &other.denied,
        )
    }
}

impl vstd::std_specs::cmp::PartialEqSpecImpl for PilgrimPassport {
    open spec fn obeys_eq_spec() -> bool {
        true
    }

    open spec fn eq_spec(&self, other: &Self) -> bool {
        self@ == other@
    }
}

/// A stamp overrides a denial: right after stamping a room, the agent may
/// enter it, whatever came before.
pub proof fn lemma_stamp_grants(p: PassportView, room: Seq<char>)
    ensures
        p.stamp(room).can_enter(room),
{
}

/// Right after denying a room, the agent may not enter it.
pub proof fn lemma_deny_blocks(p: PassportView, room: Seq<char>)
    ensures
        !p.deny(room).can_enter(room),
{
}

/// Right after revoking a room, the agent may not enter it, and the room is
/// neither stamped nor denied.
pub proof fn lemma_revoke_clears(p: PassportView, room: Seq<char>)
    ensures
        !p.revoke(room).can_enter(room),
        !p.revoke(room).stamps.contains(room),
        !p.revoke(room).denied.contains(room),
{
}

/// Stamping, denying or revoking one room leaves access to every other room
/// as it was.
pub proof fn lemma_other_rooms_unchanged(p: PassportView, room: Seq<char>, other: Seq<char>)
    requires
        other != room,
    ensures
        p.stamp(room).can_enter(other) == p.can_enter(other),
        p.deny(room).can_enter(other) == p.can_enter(other),
        p.revoke(room).can_enter(other) == p.can_enter(other),
{
}

/// No room is ever both stamped and denied: every operation keeps the two
/// sets apart, so a passport may enter exactly its stamped rooms.
pub proof fn lemma_stamps_and_denials_stay_apart(p: PassportView, room: Seq<char>, other: Seq<char>)
    requires
        p.wf(),
    ensures
        p.stamp(room).wf(),
        p.deny(room).wf(),
        p.revoke(room).wf(),
        p.can_enter(other) == p.stamps.contains(other),
{
    assert(p.stamp(room).stamps.disjoint(p.stamp(room).denied));
    assert(p.deny(room).stamps.disjoint(p.deny(room).denied));
    assert(p.revoke(room).stamps.disjoint(p.revoke(room).denied));
}

} // verus!
