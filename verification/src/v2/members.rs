//! The members of one room.

use super::model;
use super::{next_lifecycle, ClientId, Member, Promotion, Room, RoomId, RoomMode};
use super::{MAX_P2P_MEMBERS, MAX_QUEUED_MESSAGES};
use crate::ord_map;
use crate::ord_map::OrdMap;
use crate::seqs;
use crate::sfu;
use crate::time::{Duration, Instant};
use std::collections::VecDeque;
use vstd::prelude::*;

verus! {

broadcast use {crate::seqs::group_views, crate::ord_map::group_maps};

pub(super) fn new_member(
    now: Instant,
    reconnect_grace: Duration,
    token: String,
    is_initiator: bool,
    lifecycle_id: u64,
) -> (r: Member)
    ensures
        r@ == model::Member::admitted(now, reconnect_grace, token@, is_initiator, lifecycle_id),
{
    Member {
        token,
        is_initiator,
        lifecycle_id,
        registered: false,
        reconnect_deadline: Some(now.after(reconnect_grace)),
        queued_messages: VecDeque::new(),
    }
}

pub(super) fn push_queued(member: &mut Member, message: String) -> (r: Result<(), String>)
    ensures
        match r {
            Ok(_) => old(member)@.queued_messages.len() < MAX_QUEUED_MESSAGES && final(member)@ == (
            model::Member {
                queued_messages: old(member)@.queued_messages.push(message@),
                ..old(member)@
            }),
            Err(e) => old(member)@.queued_messages.len() >= MAX_QUEUED_MESSAGES && final(member)@
                == old(member)@ && e@ == "RESOURCE_EXHAUSTED"@,
        },
{
    if member.queued_messages.len() >= MAX_QUEUED_MESSAGES {
        return Err("RESOURCE_EXHAUSTED".to_string());
    }
    member.queued_messages.push_back(message);
    Ok(())
}

/// Empties every queue and makes `initiator`, if any, the one that offers.
pub(super) fn reset_members(members: &mut OrdMap<ClientId, Member>, initiator: Option<ClientId>)
    ensures
        final(members)@ == old(members)@.map_entries(
            |c: u64, m: model::Member| m.reset(initiator == Some(c)),
        ),
{
    let keys = members.keys();
    let ghost start = members@;
    let ghost f = |c: u64, m: model::Member| m.reset(initiator == Some(c));
    proof {
        ord_map::lemma_in_order::<u64>(start.dom());
        ord_map::lemma_ascending_no_duplicates::<u64>(keys@);
    }
    let mut i: usize = 0;
    while i < keys.len()
        invariant
            i <= keys@.len(),
            keys@.no_duplicates(),
            forall|c: u64| #[trigger] start.dom().contains(c) <==> keys@.contains(c),
            f == (|c: u64, m: model::Member| m.reset(initiator == Some(c))),
            members@.dom() == start.dom(),
            forall|j: int| 0 <= j < i ==> members@[#[trigger] keys@[j]] == f(keys@[j], start[keys@[j]]),
            forall|j: int| i <= j < keys@.len() ==> members@[#[trigger] keys@[j]] == start[keys@[j]],
        decreases keys@.len() - i,
    {
        assert(keys@.contains(keys@[i as int]));
        assert(start.dom().contains(keys@[i as int]));
        if let Some(member) = members.get_mut(&keys[i]) {
            member.is_initiator = match initiator {
                Some(c) => c == keys[i],
                None => false,
            };
            member.queued_messages.clear();
        }
        assert(members@.dom() =~= start.dom());
        i = i + 1;
    }
    assert(members@ =~= start.map_entries(f)) by {
        assert forall|c: u64| start.dom().contains(c) implies members@[c] == f(c, start[c]) by {
            assert(keys@.contains(c));
        }
    }
}

/// Gives every member a new lifecycle.
pub(super) fn restart_lifecycles(
    lifecycle_ids: &mut OrdMap<(RoomId, ClientId), u64>,
    room_id: RoomId,
    members: &mut OrdMap<ClientId, Member>,
)
    ensures
        final(members)@ == old(members)@.map_entries(
            |c: u64, m: model::Member|
                model::Member {
                    lifecycle_id: model::next_lifecycle_in(old(lifecycle_ids)@, room_id, c),
                    ..m
                },
        ),
        final(lifecycle_ids)@ == old(lifecycle_ids)@.union_prefer_right(
            Map::new(
                |k: (u64, u64)| k.0 == room_id && old(members)@.contains_key(k.1),
                |k: (u64, u64)| model::next_lifecycle_in(old(lifecycle_ids)@, k.0, k.1),
            ),
        ),
{
    let keys = members.keys();
    let ghost start = members@;
    let ghost ids = lifecycle_ids@;
    let ghost f = |c: u64, m: model::Member|
        model::Member { lifecycle_id: model::next_lifecycle_in(ids, room_id, c), ..m };
    proof {
        ord_map::lemma_in_order::<u64>(start.dom());
        ord_map::lemma_ascending_no_duplicates::<u64>(keys@);
    }
    let mut i: usize = 0;
    while i < keys.len()
        invariant
            i <= keys@.len(),
            keys@.no_duplicates(),
            forall|c: u64| #[trigger] start.dom().contains(c) <==> keys@.contains(c),
            f == (|c: u64, m: model::Member|
                model::Member { lifecycle_id: model::next_lifecycle_in(ids, room_id, c), ..m }),
            members@.dom() == start.dom(),
            forall|j: int| 0 <= j < i ==> members@[#[trigger] keys@[j]] == f(keys@[j], start[keys@[j]]),
            forall|j: int| i <= j < keys@.len() ==> members@[#[trigger] keys@[j]] == start[keys@[j]],
            lifecycle_ids@ == ids.union_prefer_right(
                Map::new(
                    |k: (u64, u64)| k.0 == room_id && keys@.take(i as int).contains(k.1),
                    |k: (u64, u64)| model::next_lifecycle_in(ids, k.0, k.1),
                ),
            ),
        decreases keys@.len() - i,
    {
        let ghost taken = keys@.take(i as int);
        let ghost next = keys@.take(i + 1);
        let ghost before = lifecycle_ids@;
        assert(keys@.contains(keys@[i as int]));
        assert(start.dom().contains(keys@[i as int]));
        assert(!taken.contains(keys@[i as int]));
        assert(next =~= taken.push(keys@[i as int]));
        assert forall|c: u64| next.contains(c) <==> taken.contains(c) || c == keys@[i as int] by {
            if next.contains(c) {
                let m = choose|m: int| 0 <= m < next.len() && next[m] == c;
                assert(m < i ==> taken[m] == c);
            }
            if taken.contains(c) {
                let m = choose|m: int| 0 <= m < taken.len() && taken[m] == c;
                assert(next[m] == c);
            }
            assert(next[i as int] == keys@[i as int]);
        }
        let lifecycle_id: u64 = next_lifecycle(lifecycle_ids, room_id, keys[i]);
        assert(lifecycle_ids@ =~= ids.union_prefer_right(
            Map::new(
                |k: (u64, u64)| k.0 == room_id && next.contains(k.1),
                |k: (u64, u64)| model::next_lifecycle_in(ids, k.0, k.1),
            ),
        ));
        if let Some(member) = members.get_mut(&keys[i]) {
            member.lifecycle_id = lifecycle_id;
        }
        assert(members@.dom() =~= start.dom());
        i = i + 1;
    }
    assert(members@ =~= start.map_entries(f)) by {
        assert forall|c: u64| start.dom().contains(c) implies members@[c] == f(c, start[c]) by {
            assert(keys@.contains(c));
        }
    }
    assert(keys@.take(i as int) =~= keys@);
    assert(lifecycle_ids@ =~= ids.union_prefer_right(
        Map::new(
            |k: (u64, u64)| k.0 == room_id && start.contains_key(k.1),
            |k: (u64, u64)| model::next_lifecycle_in(ids, k.0, k.1),
        ),
    ));
}

/// Empties the queues of all members but one, and hands their messages out.
pub(super) fn drain_queues(members: &mut OrdMap<ClientId, Member>, client_id: ClientId) -> (r: Vec<
    String,
>)
    ensures
        final(members)@ == old(members)@.map_entries(model::drained_for(client_id)),
        seqs::views(r@) == ord_map::in_order::<u64>(old(members)@.dom()).filter(
            model::other_than(client_id),
        ).map_values(model::queue_of(old(members)@)).flatten(),
{
    let keys = members.keys();
    let ghost start = members@;
    let ghost f = model::drained_for(client_id);
    let ghost p = model::other_than(client_id);
    let ghost g = model::queue_of(start);
    proof {
        ord_map::lemma_in_order::<u64>(start.dom());
        ord_map::lemma_ascending_no_duplicates::<u64>(keys@);
        seqs::lemma_filter_ends(keys@, p);
        assert(Seq::<u64>::empty().map_values(g) =~= Seq::empty());
    }
    let mut r: Vec<String> = Vec::new();
    let mut i: usize = 0;
    while i < keys.len()
        invariant
            i <= keys@.len(),
            keys@.no_duplicates(),
            forall|c: u64| #[trigger] start.dom().contains(c) <==> keys@.contains(c),
            f == model::drained_for(client_id),
            p == model::other_than(client_id),
            g == model::queue_of(start),
            members@.dom() == start.dom(),
            forall|j: int| 0 <= j < i ==> members@[#[trigger] keys@[j]] == f(keys@[j], start[keys@[j]]),
            forall|j: int| i <= j < keys@.len() ==> members@[#[trigger] keys@[j]] == start[keys@[j]],
            seqs::views(r@) == keys@.take(i as int).filter(p).map_values(g).flatten(),
        decreases keys@.len() - i,
    {
        let ghost c = keys@[i as int];
        assert(keys@.contains(c));
        assert(start.dom().contains(c));
        let ghost kept = keys@.take(i as int).filter(p);
        proof {
            seqs::lemma_filter_take(keys@, p, i as int);
            if p(c) {
                assert(kept.push(c).map_values(g) =~= kept.map_values(g).push(g(c)));
                kept.map_values(g).lemma_flatten_push(g(c));
            }
        }
        if keys[i] != client_id {
            if let Some(member) = members.get_mut(&keys[i]) {
                let mut queued: VecDeque<String> = VecDeque::new();
                std::mem::swap(&mut queued, &mut member.queued_messages);
                drain_into(queued, &mut r);
            }
        }
        assert(members@.dom() =~= start.dom());
        i = i + 1;
    }
    assert(members@ =~= start.map_entries(f)) by {
        assert forall|c: u64| start.dom().contains(c) implies members@[c] == f(c, start[c]) by {
            assert(keys@.contains(c));
        }
    }
    r
}

fn drain_into(queued: VecDeque<String>, r: &mut Vec<String>)
    ensures
        seqs::views(final(r)@) == seqs::views(old(r)@) + seqs::views(queued@),
{
    let mut rest = queued;
    let ghost start = seqs::views(r@);
    assert(start + seqs::views(rest@) =~= seqs::views(r@) + seqs::views(rest@));
    while rest.len() > 0
        invariant
            start + seqs::views(queued@) == seqs::views(r@) + seqs::views(rest@),
        decreases rest@.len(),
    {
        let ghost before = seqs::views(r@) + seqs::views(rest@);
        if let Some(message) = rest.pop_front() {
            r.push(message);
        }
        assert(before =~= seqs::views(r@) + seqs::views(rest@));
    }
    assert(seqs::views(rest@) =~= Seq::empty());
    assert(seqs::views(r@) + seqs::views(rest@) =~= seqs::views(r@));
}

impl Room {
    pub(super) fn other_clients(&self, client_id: ClientId) -> (r: Vec<ClientId>)
        ensures
            r@ == self@.others(client_id),
    {
        let keys = self.members.keys();
        let ghost p = model::other_than(client_id);
        proof {
            seqs::lemma_filter_ends(keys@, p);
        }
        let mut r: Vec<ClientId> = Vec::new();
        let mut i: usize = 0;
        while i < keys.len()
            invariant
                i <= keys@.len(),
                p == model::other_than(client_id),
                r@ == keys@.take(i as int).filter(p),
            decreases keys@.len() - i,
        {
            proof {
                seqs::lemma_filter_take(keys@, p, i as int);
            }
            if keys[i] != client_id {
                r.push(keys[i]);
            }
            i = i + 1;
        }
        r
    }

    pub(super) fn expired_clients(&self, now: Instant) -> (r: Vec<ClientId>)
        ensures
            r@ == self@.expired_clients(now),
    {
        let keys = self.members.keys();
        let ghost p = |c: u64| self@.members[c].expired(now);
        proof {
            ord_map::lemma_in_order::<u64>(self@.members.dom());
            seqs::lemma_filter_ends(keys@, p);
        }
        let mut r: Vec<ClientId> = Vec::new();
        let mut i: usize = 0;
        while i < keys.len()
            invariant
                i <= keys@.len(),
                forall|c: u64| #[trigger]
                    self@.members.dom().contains(c) <==> keys@.contains(c),
                p == (|c: u64| self@.members[c].expired(now)),
                r@ == keys@.take(i as int).filter(p),
            decreases keys@.len() - i,
        {
            proof {
                seqs::lemma_filter_take(keys@, p, i as int);
                assert(keys@.contains(keys@[i as int]));
                assert(self@.members.dom().contains(keys@[i as int]));
            }
            if let Some(member) = self.members.get(&keys[i]) {
                if let Some(deadline) = member.reconnect_deadline {
                    if deadline.is_due(now) {
                        r.push(keys[i]);
                    }
                }
            }
            i = i + 1;
        }
        r
    }

    pub(super) fn projections(&self) -> (r: Vec<sfu::MemberProjection>)
        ensures
            r@ == self@.projections(),
    {
        let keys = self.members.keys();
        proof {
            ord_map::lemma_in_order::<u64>(self@.members.dom());
        }
        let mut r: Vec<sfu::MemberProjection> = Vec::new();
        let mut i: usize = 0;
        while i < keys.len()
            invariant
                i <= keys@.len(),
                r@.len() == i,
                forall|c: u64| #[trigger]
                    self@.members.dom().contains(c) <==> keys@.contains(c),
                forall|j: int|
                    0 <= j < i ==> #[trigger] r@[j] == (sfu::MemberProjection {
                        client_id: keys@[j],
                        lifecycle_id: self@.members[keys@[j]].lifecycle_id,
                    }),
            decreases keys@.len() - i,
        {
            assert(keys@.contains(keys@[i as int]));
            assert(self@.members.dom().contains(keys@[i as int]));
            if let Some(member) = self.members.get(&keys[i]) {
                r.push(
                    sfu::MemberProjection {
                        client_id: keys[i],
                        lifecycle_id: member.lifecycle_id,
                    },
                );
            }
            i = i + 1;
        }
        assert(r@ =~= self@.projections());
        r
    }

    pub(super) fn promote_survivor(&mut self, room_id: RoomId) -> (r: Option<Promotion>)
        ensures
            r == old(self)@.promotion(room_id),
            final(self)@ == old(self)@.promoted(),
    {
        if self.members.len() != 1 || (self.mode != RoomMode::P2p && self.mode != RoomMode::Sfu) {
            return None;
        }
        let client_id: ClientId = *self.members.key_at(0);
        let signal_epoch: u64 = self.signal_epoch;
        match self.members.get_mut(&client_id) {
            Some(member) => {
                member.is_initiator = true;
                member.queued_messages.clear();
                if member.registered {
                    Some(Promotion { room_id, client_id, signal_epoch })
                } else {
                    None
                }
            },
            None => None,
        }
    }

    /// Removes the members whose reconnect deadline has been reached; says
    /// whether there were any.
    pub(super) fn remove_expired(&mut self, now: Instant) -> (r: bool)
        ensures
            r == (old(self)@.expired_clients(now).len() > 0),
            final(self)@ == old(self)@.without_expired(now),
    {
        let expired = self.expired_clients(now);
        let ghost start = self@;
        let ghost p = |c: u64| start.members[c].expired(now);
        let mut i: usize = 0;
        assert(expired@.take(0) =~= Seq::empty());
        assert(start.members.remove_keys(expired@.take(0).to_set()) =~= start.members);
        while i < expired.len()
            invariant
                i <= expired@.len(),
                self@ == (model::Room {
                    members: start.members.remove_keys(expired@.take(i as int).to_set()),
                    ..start
                }),
            decreases expired@.len() - i,
        {
            let ghost taken = expired@.take(i as int);
            let ghost next = expired@.take(i + 1);
            proof {
                assert(next =~= taken.push(expired@[i as int]));
                assert forall|c: u64| next.to_set().contains(c) <==> taken.to_set().contains(c)
                    || c == expired@[i as int] by {
                    if taken.contains(c) {
                        let m = choose|m: int| 0 <= m < taken.len() && taken[m] == c;
                        assert(next[m] == c);
                    }
                    assert(next[i as int] == expired@[i as int]);
                    if next.contains(c) {
                        let m = choose|m: int| 0 <= m < next.len() && next[m] == c;
                        assert(m < i ==> taken[m] == c);
                    }
                }
            }
            self.members.remove(&expired[i]);
            i = i + 1;
            assert(self@.members =~= start.members.remove_keys(next.to_set()));
        }
        proof {
            assert(expired@.take(i as int) =~= expired@);
            ord_map::lemma_in_order::<u64>(start.members.dom());
            seqs::lemma_filter_contains(start.clients(), p);
            assert forall|c: u64| start.has(c) && p(c) <==> start.has(c)
                && expired@.to_set().contains(c) by {
                assert(expired@ == start.clients().filter(p));
                assert(expired@.contains(c) <==> start.clients().contains(c) && p(c));
                assert(start.members.dom().contains(c) <==> start.clients().contains(c));
            }
            assert(self@.members =~= start.without_expired(now).members);
        }
        expired.len() > 0
    }

    pub(super) fn is_downgrade_eligible(&self) -> (r: bool)
        ensures
            r == self@.downgrade_eligible(),
    {
        self.mode == RoomMode::Sfu && !self.members.is_empty() && self.members.len()
            <= MAX_P2P_MEMBERS && self.upgrade.is_none() && self.pending_join.is_none()
            && self.pending_leave.is_none()
    }
}

} // verus!
