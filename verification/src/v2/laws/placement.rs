//! Which worker a room is placed on.

use super::upgrades;
use crate::key;
use crate::seqs::Text;
use crate::sfu;
use crate::sfu::{CommandKindView, OutputView};
use crate::time::Instant;
use crate::v2::model::{Table, Worker};
use crate::v2::{ActionView, AdmissionResultView, RoomMode};
use vstd::prelude::*;

verus! {

/// Whether a worker is connected, says that it is ready, and has a place for one more room
/// and three more clients.
pub open spec fn has_place(worker: Worker) -> bool {
    &&& worker.connection_id is Some
    &&& worker.health matches Some(health) && health.state == sfu::State::Ready
    &&& worker.assigned_rooms.len() < worker.capacity.max_rooms
    &&& worker.assigned_clients + 3 <= worker.capacity.max_clients
}

/// A room that a third client moves to a worker goes to one that has a place, and of those
/// to the one with the fewest clients; among equals to the one with the fewest rooms, and
/// among equals in both to the one whose name comes first. The worker has the room and
/// three more clients from then on; it, and no other, is asked to take the member with the
/// lowest number first.
pub proof fn law_upgrade_takes_the_least_loaded_worker(
    t: Table,
    authority_request_id: u64,
    now: Instant,
    room_id: u64,
    client_id: u64,
    token: Text,
)
    requires
        t.inv(),
        t.rooms.contains_key(room_id),
        t.rooms[room_id].mode == RoomMode::P2p,
        t.rooms[room_id].members.dom().len() == 2,
        !t.rooms[room_id].members.contains_key(client_id),
        exists|i: Text| #[trigger] t.workers.contains_key(i) && has_place(t.workers[i]),
        forall|i: Text| #[trigger]
            t.workers.contains_key(i) ==> t.workers[i].assigned_clients + 3 <= usize::MAX,
    ensures
        ({
            let (u, result) = t.admit_client(authority_request_id, now, room_id, client_id, token);
            let chosen = u.rooms[room_id].assigned_instance->0;
            let best = t.workers[chosen];
            &&& result == Ok::<AdmissionResultView, Text>(AdmissionResultView::Pending)
            &&& u.rooms[room_id].mode == RoomMode::Upgrading
            &&& u.rooms[room_id].assigned_instance is Some
            &&& t.workers.contains_key(chosen)
            &&& has_place(best)
            &&& forall|o: Text| #[trigger]
                t.workers.contains_key(o) && has_place(t.workers[o]) && o != chosen ==> {
                    let other = t.workers[o];
                    &&& best.assigned_clients <= other.assigned_clients
                    &&& best.assigned_clients == other.assigned_clients
                        ==> best.assigned_rooms.len() <= other.assigned_rooms.len()
                    &&& best.assigned_clients == other.assigned_clients
                        && best.assigned_rooms.len() == other.assigned_rooms.len()
                        ==> key::text_before(chosen, o)
                }
            &&& u.workers == t.workers.insert(
                chosen,
                Worker {
                    assigned_rooms: best.assigned_rooms.insert(room_id),
                    assigned_clients: (best.assigned_clients + 3) as usize,
                    ..best
                },
            )
            &&& u.actions.len() == t.actions.len() + 1
            &&& u.actions.last() matches ActionView::Sfu(
                OutputView::Command { connection_id, command },
            )
            &&& Some(connection_id) == best.connection_id
            &&& command.request_id == t.next_sfu_request_id
            &&& command.command matches CommandKindView::Join(join)
            &&& join.room_id == room_id
            &&& t.rooms[room_id].members.contains_key(join.client_id)
            &&& forall|c: u64| #[trigger]
                t.rooms[room_id].members.contains_key(c) ==> join.client_id <= c
        }),
{
    let some = choose|i: Text| #[trigger] t.workers.contains_key(i) && has_place(t.workers[i]);
    assert(t.can_host(some, 3));
    upgrades::law_third_join_starts_upgrade(
        t,
        authority_request_id,
        now,
        room_id,
        client_id,
        token,
    );
    let (u, result) = t.admit_client(authority_request_id, now, room_id, client_id, token);
    let chosen = t.selected_worker(3)->0;
    assert forall|o: Text| #[trigger]
        t.workers.contains_key(o) && has_place(t.workers[o]) && o != chosen implies {
        let other = t.workers[o];
        let best = t.workers[chosen];
        &&& best.assigned_clients <= other.assigned_clients
        &&& best.assigned_clients == other.assigned_clients ==> best.assigned_rooms.len()
            <= other.assigned_rooms.len()
        &&& best.assigned_clients == other.assigned_clients && best.assigned_rooms.len()
            == other.assigned_rooms.len() ==> key::text_before(chosen, o)
    } by {
        assert(t.can_host(o, 3));
        assert(t.less_loaded(chosen, o));
    }
    let room = t.rooms[room_id];
    super::news::lemma_clients(room);
    crate::ord_map::lemma_in_order::<u64>(room.members.dom());
    let low = room.clients()[0];
    assert(room.clients().contains(low));
    assert forall|c: u64| #[trigger] room.members.contains_key(c) implies low <= c by {
        assert(room.clients().contains(c));
        let k = choose|k: int| 0 <= k < room.clients().len() && room.clients()[k] == c;
        if k > 0 {
            assert(<u64 as key::Key>::before(room.clients()[0], room.clients()[k]));
        }
    }
}

/// Where no worker has a place, a third client is refused, and nothing changes.
pub proof fn law_upgrade_needs_a_place(
    t: Table,
    authority_request_id: u64,
    now: Instant,
    room_id: u64,
    client_id: u64,
    token: Text,
)
    requires
        t.inv(),
        t.rooms.contains_key(room_id),
        t.rooms[room_id].mode == RoomMode::P2p,
        t.rooms[room_id].members.dom().len() == 2,
        !t.rooms[room_id].members.contains_key(client_id),
        forall|i: Text| #[trigger] t.workers.contains_key(i) ==> !has_place(t.workers[i]),
        forall|i: Text| #[trigger]
            t.workers.contains_key(i) ==> t.workers[i].assigned_clients + 3 <= usize::MAX,
    ensures
        t.admit_client(authority_request_id, now, room_id, client_id, token) == (
            t,
            Err::<AdmissionResultView, Text>("NO_SFU_AVAILABLE"@),
        ),
{
    assert forall|i: Text| !#[trigger] t.can_host(i, 3) by {}
}

} // verus!
