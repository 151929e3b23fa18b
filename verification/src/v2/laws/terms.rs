//! What the terms mean in which the rooms of V2 are described.

use super::members::is_connected;
use crate::room::laws::clients::at_most;
use crate::seqs::Text;
use crate::time::{Duration, Instant};
use crate::v2::model::{Member, Room, Table};
use crate::v2::RoomMode;
use vstd::prelude::*;

verus! {

/// A new table is empty, numbers its commands from one, and lets small rooms dwell for two
/// seconds.
pub proof fn law_new_table_is_empty(grace: Duration)
    ensures
        ({
            let t = Table::initial(grace);
            &&& t.rooms.dom() == Set::<u64>::empty()
            &&& t.workers.dom() == Set::<Text>::empty()
            &&& t.lifecycle_ids.dom() == Set::<(u64, u64)>::empty()
            &&& t.pending_commands.dom() == Set::<u64>::empty()
            &&& t.actions.len() == 0
            &&& t.next_sfu_request_id == 1
            &&& t.reconnect_grace == grace
            &&& t.downgrade_dwell.nanos == 2_000_000_000
        }),
{
    let t = Table::initial(grace);
    assert(t.rooms.dom() =~= Set::<u64>::empty());
    assert(t.workers.dom() =~= Set::<Text>::empty());
    assert(t.lifecycle_ids.dom() =~= Set::<(u64, u64)>::empty());
    assert(t.pending_commands.dom() =~= Set::<u64>::empty());
}

/// What happens to a member changes what it is about and nothing else.
pub proof fn law_member_changes_are_single(
    m: Member,
    is_initiator: bool,
    now: Instant,
    grace: Duration,
    token: Text,
    lifecycle_id: u64,
)
    ensures
        m.reset(is_initiator) == (Member { is_initiator, queued_messages: Seq::empty(), ..m }),
        m.expired(now) <==> (m.reconnect_deadline matches Some(d) && d.nanos <= now.nanos),
        Member::admitted(now, grace, token, is_initiator, lifecycle_id) == (Member {
            token,
            is_initiator,
            lifecycle_id,
            registered: false,
            reconnect_deadline: Some(at_most(now, grace)),
            queued_messages: Seq::empty(),
        }),
{
}

/// What happens to a room changes what it is about and nothing else. A room is small if it
/// runs on a worker with one or two members and waits for nobody.
pub proof fn law_room_changes_are_single(
    room: Room,
    client_id: u64,
    member: Member,
    initiator: Option<u64>,
)
    ensures
        room.with_member(client_id, member) == (Room {
            members: room.members.insert(client_id, member),
            ..room
        }),
        room.without_member(client_id) == (Room {
            members: room.members.remove(client_id),
            ..room
        }),
        room.with_initiator(initiator) == (Room {
            members: room.with_initiator(initiator).members,
            ..room
        }),
        room.with_initiator(initiator).members.dom() == room.members.dom(),
        forall|c: u64| #[trigger]
            room.members.contains_key(c) ==> room.with_initiator(initiator).members[c] == (Member {
                is_initiator: initiator == Some(c),
                queued_messages: Seq::empty(),
                ..room.members[c]
            }),
        room.downgrade_eligible() <==> {
            &&& room.mode == RoomMode::Sfu
            &&& 1 <= room.members.dom().len() <= 2
            &&& room.upgrade is None
            &&& room.pending_join is None
            &&& room.pending_leave is None
        },
        room.has(client_id) <==> room.members.contains_key(client_id),
{
    assert(room.with_initiator(initiator).members.dom() =~= room.members.dom());
}

/// A room is served by the worker that it is assigned to, under its connection.
pub proof fn law_room_is_served_by_its_worker(
    t: Table,
    room: Room,
    instance_id: Text,
    connection_id: u64,
)
    ensures
        t.serving(room) == Some((instance_id, connection_id)) <==> room.assigned_instance == Some(
            instance_id,
        ) && is_connected(t, instance_id, connection_id),
        t.connection(instance_id) == Some(connection_id) <==> is_connected(
            t,
            instance_id,
            connection_id,
        ),
{
}

/// Numbers go up by one and stop at the largest; sums stop at the largest, and differences
/// at zero.
pub proof fn law_counters_stop_at_their_ends(n: u64, a: usize, b: usize, c: nat)
    ensures
        n < u64::MAX ==> crate::v2::model::increment(n) == n + 1,
        crate::v2::model::increment(u64::MAX) == u64::MAX,
        a + b <= usize::MAX ==> crate::v2::model::capped_sum(a, b) == a + b,
        a + b > usize::MAX ==> crate::v2::model::capped_sum(a, b) == usize::MAX,
        c <= a ==> crate::v2::model::capped_difference(a, c) == a - c,
        c > a ==> crate::v2::model::capped_difference(a, c) == 0,
{
}

} // verus!
