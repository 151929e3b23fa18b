//! What the actions of the V2 rooms come to, and what the clock lets browsers hear.

use super::news;
use super::news::{hears_once, is_frame};
use crate::collider::model::State;
use crate::collider::{AuthorityResponseView, AuthorityResultView, BrowserOutputView};
use crate::seqs::Text;
use crate::sfu;
use crate::text;
use crate::time::Instant;
use crate::v2;
use crate::v2::laws::timing::{is_abandoned, is_late};
use crate::v2::laws::{deadlines, timing};
use crate::v2::{ActionView, Promotion, RoomMode};
use crate::wire;
use crate::wire::Field;
use vstd::prelude::*;

verus! {

/// Whatever is for a worker goes out to it as it is.
pub proof fn law_commands_go_out(s: State, output: sfu::OutputView)
    ensures
        s.after_action(ActionView::Sfu(output)) == (State {
            browser_outputs: s.browser_outputs.push(BrowserOutputView::Sfu(output)),
            ..s
        }),
{
}

/// A room server that waited for an admission gets what the room says of it: the mode, the
/// epoch, the token and whether the client offers, or why it is refused. Nothing else
/// happens.
pub proof fn law_waiting_admission_is_answered(
    s: State,
    request_id: u64,
    result: Result<v2::AdmissionView, Text>,
)
    ensures
        s.after_action(
            ActionView::AdmissionCompleted { authority_request_id: request_id, result },
        ) == (State {
            authority_responses: s.authority_responses.push(
                AuthorityResponseView {
                    request_id,
                    result: match result {
                        Ok(admission) => AuthorityResultView::AdmittedV2 {
                            mode: admission.mode,
                            signal_epoch: admission.signal_epoch,
                            admission_token: admission.admission_token,
                            is_initiator: admission.is_initiator,
                        },
                        Err(reason) => AuthorityResultView::Error { result: reason },
                    },
                },
            ),
            ..s
        }),
{
}

/// A room server that waited for a removal is told that it is done, and the connection of
/// the client, if it has one, is closed and forgotten; or it is told why it is not, and
/// nothing else happens.
pub proof fn law_waiting_removal_is_answered(
    s: State,
    request_id: u64,
    room_id: u64,
    client_id: u64,
    result: Result<(), Text>,
)
    ensures
        ({
            let t = s.after_action(
                ActionView::RemovalCompleted {
                    authority_request_id: request_id,
                    room_id,
                    client_id,
                    result,
                },
            );
            let key = (room_id, client_id);
            let id = s.v2_connections[key];
            let closes = result is Ok && s.v2_connections.contains_key(key);
            &&& t == (State {
                authority_responses: s.authority_responses.push(
                    AuthorityResponseView {
                        request_id,
                        result: match result {
                            Ok(_) => AuthorityResultView::RemovedV2,
                            Err(reason) => AuthorityResultView::Error { result: reason },
                        },
                    },
                ),
                v2_connections: t.v2_connections,
                sessions: t.sessions,
                browser_outputs: t.browser_outputs,
                ..s
            })
            &&& closes ==> {
                &&& t.v2_connections == s.v2_connections.remove(key)
                &&& t.sessions == s.sessions.remove(id)
                &&& t.browser_outputs == s.browser_outputs.push(
                    BrowserOutputView::Close { connection_id: id },
                )
            }
            &&& !closes ==> t.v2_connections == s.v2_connections && t.sessions == s.sessions
                && t.browser_outputs == s.browser_outputs
        }),
{
}

/// Actions are performed one after the other, and none is left.
pub proof fn law_actions_are_performed_in_order(
    s: State,
    first: Seq<ActionView>,
    last: ActionView,
)
    ensures
        s.performed(Seq::empty()) == s,
        s.performed(first.push(last)) == s.performed(first).after_action(last),
        s.with_actions_drained().v2_rooms == (v2::model::Table {
            actions: Seq::empty(),
            ..s.v2_rooms
        }),
{
    super::lemma_actions_drained(s);
    assert(first.push(last).drop_last() =~= first);
}

/// What a worker sends is what the rooms make of it. Where they take it, what they have to
/// do is done; where they do not, the driver is told why, and nothing is said to anybody.
pub proof fn law_worker_inputs_are_passed_on(s: State, input: sfu::InputView)
    ensures
        ({
            let (rooms, result) = s.v2_rooms.handle_sfu_input(input);
            let (t, answer) = s.handle_sfu_input(input);
            &&& answer == result
            &&& result is Err ==> t == (State { v2_rooms: rooms, ..s })
            &&& result is Ok ==> {
                &&& t.v2_rooms == (v2::model::Table { actions: Seq::empty(), ..rooms })
                &&& t == (State {
                    v2_rooms: v2::model::Table { actions: Seq::empty(), ..rooms },
                    ..s
                }).performed(rooms.actions)
            }
        }),
{
    super::lemma_actions_drained(State { v2_rooms: s.v2_rooms.handle_sfu_input(input).0, ..s });
}

/// The clock is passed on to all rooms: what the V1 rooms and the V2 rooms make of it is
/// what there is, and no connection is forgotten where the rooms have no removal to answer.
pub proof fn law_clock_is_passed_on(s: State, now: Instant)
    requires
        s.v2_rooms.actions.len() == 0,
    ensures
        ({
            let t = s.handle_timeout(now);
            let rooms = s.v2_rooms.handle_timeout(now).0;
            &&& t.rooms == s.rooms.handle_timeout(now)
            &&& t.v2_rooms == (v2::model::Table { actions: Seq::empty(), ..rooms })
            &&& t.connections == s.connections
            &&& t.v2_connections == s.v2_connections
        }),
{
    let (v2_rooms, promotions) = s.v2_rooms.handle_timeout(now);
    let timed = State { rooms: s.rooms.handle_timeout(now), v2_rooms, ..s };
    let told = timed.with_promotions(promotions);
    super::lemma_promotions(timed, promotions);
    super::lemma_actions_drained(told);
    timing::lemma_clock_removes_nobody(s.v2_rooms, now);
    lemma_keeps_connections(
        State { v2_rooms: v2::model::Table { actions: Seq::empty(), ..v2_rooms }, ..told },
        v2_rooms.actions,
    );
}

/// Among the outputs that came since there is a frame for the connection that reads as
/// these fields.
pub open spec fn hears(
    before: Seq<BrowserOutputView>,
    after: Seq<BrowserOutputView>,
    connection_id: u64,
    fields: wire::Fields,
) -> bool {
    exists|i: int|
        before.len() <= i < after.len() && is_frame(#[trigger] after[i], connection_id, fields)
}

/// When the clock has taken a member from a direct room, the one that is left, if it is
/// connected and has a connection, hears exactly once that it offers from then on, under
/// the epoch of the room.
pub proof fn law_survivor_of_the_clock_is_told(
    s: State,
    now: Instant,
    room_id: u64,
    client_id: u64,
    late_id: u64,
)
    requires
        s.inv(),
        s.v2_rooms.actions.len() == 0,
        !is_abandoned(s.v2_rooms, now, room_id),
        s.v2_rooms.rooms.contains_key(room_id),
        s.v2_rooms.rooms[room_id].mode == RoomMode::P2p,
        s.v2_rooms.rooms[room_id].members.contains_key(client_id),
        s.v2_rooms.rooms[room_id].members.contains_key(late_id),
        is_late(s.v2_rooms.rooms[room_id].members[late_id], now),
        s.v2_rooms.rooms[room_id].members[client_id].registered,
        s.v2_connections.contains_key((room_id, client_id)),
    ensures
        hears_once(
            s.browser_outputs,
            s.handle_timeout(now).browser_outputs,
            s.v2_connections[(room_id, client_id)],
            seq![
                ("control"@, Field::Text("p2p-promote"@)),
                ("roomid"@, Field::Text(text::decimal(room_id as nat))),
                (
                    "epoch"@,
                    Field::Text(
                        text::decimal(s.v2_rooms.rooms[room_id].signal_epoch as nat),
                    ),
                ),
                ("is_initiator"@, Field::Flag(true)),
            ],
        ),
{
    let room = s.v2_rooms.rooms[room_id];
    let k = s.v2_connections[(room_id, client_id)];
    let (v2_rooms, promotions) = s.v2_rooms.handle_timeout(now);
    let timed = State { rooms: s.rooms.handle_timeout(now), v2_rooms, ..s };
    let told = timed.with_promotions(promotions);
    super::lemma_promotions(timed, promotions);
    super::lemma_actions_drained(told);
    timing::law_time_takes_late_members(s.v2_rooms, now, room_id);
    let p = Promotion { room_id, client_id, signal_epoch: room.signal_epoch };
    assert(!is_late(room.members[client_id], now)) by {
        assert(room.members.contains_key(client_id));
    }
    assert(promotions.contains(p));
    let m = choose|m: int| 0 <= m < promotions.len() && promotions[m] == p;
    news::lemma_belongs(s, room_id, client_id);
    deadlines::lemma_promotions_are_single(s.v2_rooms, now);
    assert forall|i: int| 0 <= i < promotions.len() && i != m implies (
    #[trigger] promotions[i]).room_id != room_id by {
        assert(promotions[i].room_id != promotions[m].room_id);
    }
    let fields = news::offer_fields("p2p-promote"@, room_id, room.signal_epoch, true);
    news::lemma_spoken_promotions(timed, promotions, m, k, room_id, client_id);
    let base = State {
        v2_rooms: v2::model::Table { actions: Seq::empty(), ..v2_rooms },
        ..told
    };
    assert(news::belongs_to(base, k, room_id, client_id));
    let all = v2_rooms.actions;
    timing::lemma_silent_sweep(s.v2_rooms, now, room_id);
    assert forall|i: int| 0 <= i < all.len() implies !news::speaks_to(
        #[trigger] all[i],
        room_id,
        client_id,
    ) && v2::laws::news::addressees(all[i]).no_duplicates() by {}
    news::lemma_silent_actions(base, all, k, room_id, client_id);
    news::lemma_heard_before(
        s.browser_outputs,
        base.browser_outputs,
        s.handle_timeout(now).browser_outputs,
        k,
        fields,
    );
}

/// When a worker did not come back in time, every member of a room that runs on it, but one
/// that was still waiting to join, hears, if it has a connection, that the room has failed
/// because the worker is unavailable.
pub proof fn law_loss_of_the_worker_is_told(
    s: State,
    now: Instant,
    instance_id: Text,
    room_id: u64,
    client_id: u64,
)
    requires
        s.inv(),
        s.v2_rooms.actions.len() == 0,
        s.v2_rooms.workers.contains_key(instance_id),
        s.v2_rooms.workers[instance_id].disconnect_deadline matches Some(d) && d.nanos <= now.nanos,
        s.v2_rooms.rooms.contains_key(room_id),
        s.v2_rooms.rooms[room_id].mode == RoomMode::Sfu,
        s.v2_rooms.rooms[room_id].assigned_instance == Some(instance_id),
        s.v2_rooms.rooms[room_id].members.contains_key(client_id),
        !(s.v2_rooms.rooms[room_id].pending_join matches Some(j) && j.client_id == client_id),
        s.v2_connections.contains_key((room_id, client_id)),
    ensures
        s.handle_timeout(now).v2_rooms.rooms.contains_key(room_id),
        s.handle_timeout(now).v2_rooms.rooms[room_id].mode == RoomMode::Failed,
        hears(
            s.browser_outputs,
            s.handle_timeout(now).browser_outputs,
            s.v2_connections[(room_id, client_id)],
            seq![
                ("control"@, Field::Text("room-failed"@)),
                ("roomid"@, Field::Text(text::decimal(room_id as nat))),
                ("reason"@, Field::Text("WORKER_UNAVAILABLE"@)),
            ],
        ),
{
    let room = s.v2_rooms.rooms[room_id];
    let k = s.v2_connections[(room_id, client_id)];
    let (v2_rooms, promotions) = s.v2_rooms.handle_timeout(now);
    let timed = State { rooms: s.rooms.handle_timeout(now), v2_rooms, ..s };
    let told = timed.with_promotions(promotions);
    super::lemma_promotions(timed, promotions);
    super::lemma_actions_drained(told);
    deadlines::law_lost_worker_fails_its_rooms(s.v2_rooms, now, instance_id, room_id);
    let news_of = ActionView::RoomFailed {
        room_id,
        clients: deadlines::told_of_failure(room),
        reason: "WORKER_UNAVAILABLE"@,
    };
    let all = v2_rooms.actions;
    assert(all.contains(news_of));
    let stayed = match room.pending_join {
        Some(join) => room.without_member(join.client_id),
        None => room,
    };
    assert(stayed.members.dom().subset_of(room.members.dom()));
    vstd::set_lib::lemma_len_subset(stayed.members.dom(), room.members.dom());
    v2::laws::news::lemma_clients(stayed);
    assert(stayed.clients().contains(client_id)) by {
        assert(stayed.members.contains_key(client_id));
    }
    let m = choose|m: int| 0 <= m < all.len() && all[m] == news_of;
    let base = State {
        v2_rooms: v2::model::Table { actions: Seq::empty(), ..v2_rooms },
        ..told
    };
    timing::lemma_clock_removes_nobody(s.v2_rooms, now);
    lemma_failure_is_heard(base, all, m, k, room_id, client_id);
    let before = s.browser_outputs;
    let after = s.handle_timeout(now).browser_outputs;
    let fields = news::failure_fields(room_id, "WORKER_UNAVAILABLE"@);
    let i = choose|i: int|
        base.browser_outputs.len() <= i < after.len() && is_frame(#[trigger] after[i], k, fields);
    assert(is_frame(after[i], k, fields));
}

/// A failure among actions that close no connection is heard.
proof fn lemma_failure_is_heard(
    s: State,
    actions: Seq<ActionView>,
    m: int,
    connection_id: u64,
    r: u64,
    c: u64,
)
    requires
        s.v2_connections.contains_key((r, c)),
        s.v2_connections[(r, c)] == connection_id,
        0 <= m < actions.len(),
        actions[m] matches ActionView::RoomFailed { room_id, clients, .. } && room_id == r
            && clients.contains(c),
        forall|i: int|
            0 <= i < actions.len() ==> !((#[trigger] actions[i]) matches
                ActionView::RemovalCompleted { result, .. } && result is Ok),
    ensures
        s.performed(actions).v2_connections == s.v2_connections,
        hears(
            s.browser_outputs,
            s.performed(actions).browser_outputs,
            connection_id,
            news::failure_fields(r, actions[m]->RoomFailed_reason),
        ),
    decreases actions.len(),
{
    let front = actions.drop_last();
    let last = actions.last();
    let t = s.performed(front);
    let fields = news::failure_fields(r, actions[m]->RoomFailed_reason);
    assert(last == actions[actions.len() - 1]);
    assert forall|i: int| 0 <= i < front.len() implies !((#[trigger] front[i]) matches
        ActionView::RemovalCompleted { result, .. } && result is Ok) by {
        assert(front[i] == actions[i]);
    }
    super::lemma_performed(s, front);
    if m == actions.len() - 1 {
        lemma_keeps_connections(s, front);
        let reason = last->RoomFailed_reason;
        let clients = last->RoomFailed_clients;
        let texts = crate::collider::model::failure_text(r, reason);
        let p = crate::collider::model::is_reachable(t.v2_connections, r);
        let g = crate::collider::model::addressed(t.v2_connections, r, texts);
        let kept = clients.filter(p);
        crate::seqs::lemma_filter_contains(clients, p);
        assert(p(c));
        assert(kept.contains(c));
        let j = choose|j: int| 0 <= j < kept.len() && kept[j] == c;
        wire::law_failure_frame_carries_its_fields(
            "room-failed"@,
            text::decimal(r as nat),
            reason,
        );
        let after = s.performed(actions).browser_outputs;
        let i = t.browser_outputs.len() + j;
        assert(after[i] == g(kept[j]));
        assert(is_frame(after[i], connection_id, fields));
    } else {
        lemma_failure_is_heard(s, front, m, connection_id, r, c);
        let i = choose|i: int|
            s.browser_outputs.len() <= i < t.browser_outputs.len() && is_frame(
                #[trigger] t.browser_outputs[i],
                connection_id,
                fields,
            );
        let after = s.performed(actions).browser_outputs;
        super::lemma_performed(t, seq![last]);
        lemma_after_leads(t, last);
        assert(after[i] == t.browser_outputs[i]);
    }
    lemma_keeps_connections(s, actions);
}

proof fn lemma_after_leads(s: State, action: ActionView)
    ensures
        s.browser_outputs.is_prefix_of(s.after_action(action).browser_outputs),
{
}

proof fn lemma_keeps_connections(s: State, actions: Seq<ActionView>)
    requires
        forall|i: int|
            0 <= i < actions.len() ==> !((#[trigger] actions[i]) matches
                ActionView::RemovalCompleted { result, .. } && result is Ok),
    ensures
        s.performed(actions).v2_connections == s.v2_connections,
    decreases actions.len(),
{
    if actions.len() > 0 {
        let front = actions.drop_last();
        assert forall|i: int| 0 <= i < front.len() implies !((#[trigger] front[i]) matches
            ActionView::RemovalCompleted { result, .. } && result is Ok) by {
            assert(front[i] == actions[i]);
        }
        lemma_keeps_connections(s, front);
        assert(actions.last() == actions[actions.len() - 1]);
    }
}

} // verus!
