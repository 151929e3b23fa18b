//! What browsers hear of a room that moves to a worker or back, or fails.

use super::news;
use super::news::{goes_to, hears_once, is_for};
use crate::collider::model::State;
use crate::collider::{AuthorityResponseView, AuthorityResultView};
use crate::seqs::Text;
use crate::sfu;
use crate::text;
use crate::time::Instant;
use crate::v2;
use crate::v2::laws::news as actions;
use crate::v2::laws::deadlines;
use crate::v2::{ActionView, RoomMode, SendResultView};
use crate::wire::Field;
use vstd::prelude::*;

verus! {

/// When an upgrade is complete, every member that was there before and has a connection
/// hears of it exactly once, and nobody else hears anything: the frame names the room and
/// the signal epoch that the room has from then on, one higher than before, so that what
/// is sent under the announced epoch is taken to the worker. The joining client is
/// admitted under the same epoch.
#[verifier::rlimit(40)]
pub proof fn law_upgrade_is_announced(s: State, input: sfu::InputView, room_id: u64)
    requires
        s.inv(),
        s.v2_rooms.actions.len() == 0,
        s.v2_rooms.rooms.contains_key(room_id),
        s.v2_rooms.rooms[room_id].mode == RoomMode::Upgrading,
        s.v2_rooms.rooms[room_id].signal_epoch < u64::MAX,
        s.handle_sfu_input(input).0.v2_rooms.rooms.contains_key(room_id),
        s.handle_sfu_input(input).0.v2_rooms.rooms[room_id].mode == RoomMode::Sfu,
    ensures
        ({
            let before = s.v2_rooms.rooms[room_id];
            let joining = before.upgrade->0.joining_client_id;
            let (t, result) = s.handle_sfu_input(input);
            let after = t.v2_rooms.rooms[room_id];
            let epoch = text::decimal(after.signal_epoch as nat);
            &&& result is Ok
            &&& after.signal_epoch == before.signal_epoch + 1
            &&& after.members.dom() == before.members.dom()
            &&& forall|c: u64|
                before.members.contains_key(c) && c != joining
                    && #[trigger] s.v2_connections.contains_key((room_id, c)) ==> hears_once(
                    s.browser_outputs,
                    t.browser_outputs,
                    s.v2_connections[(room_id, c)],
                    seq![
                        ("control"@, Field::Text("sfu-upgrade"@)),
                        ("roomid"@, Field::Text(text::decimal(room_id as nat))),
                        ("epoch"@, Field::Text(epoch)),
                    ],
                )
            &&& forall|i: int|
                s.browser_outputs.len() <= i < t.browser_outputs.len() ==> goes_to(
                    #[trigger] t.browser_outputs[i],
                    s.v2_connections,
                    room_id,
                    before.members.dom().remove(joining),
                )
            &&& text::canonical(epoch) == Some(after.signal_epoch)
            &&& forall|c: u64, message: Text|
                before.members.contains_key(c) ==> (#[trigger] t.v2_rooms.send(
                    room_id,
                    c,
                    after.signal_epoch,
                    message,
                )).1 == Ok::<SendResultView, Text>(SendResultView::Sfu)
            &&& t.authority_responses == s.authority_responses.push(
                AuthorityResponseView {
                    request_id: before.upgrade->0.authority_request_id,
                    result: AuthorityResultView::AdmittedV2 {
                        mode: RoomMode::Sfu,
                        signal_epoch: after.signal_epoch,
                        admission_token: before.members[joining].token,
                        is_initiator: None,
                    },
                },
            )
        }),
{
    let before = s.v2_rooms.rooms[room_id];
    let upgrade = before.upgrade->0;
    let joining = upgrade.joining_client_id;
    let v2_rooms = s.v2_rooms.handle_sfu_input(input).0;
    super::lemma_actions_drained(State { v2_rooms, ..s });
    actions::lemma_commit_says(s.v2_rooms, room_id, input);
    let (t, result) = s.handle_sfu_input(input);
    let after = t.v2_rooms.rooms[room_id];
    let base = State { v2_rooms: v2::model::Table { actions: Seq::empty(), ..v2_rooms }, ..s };
    let all = v2_rooms.actions;
    let clients = before.others(joining);
    actions::lemma_others(before, joining);
    assert(all.len() == 2);
    assert(all.drop_last().drop_last() =~= Seq::empty());
    assert(all.drop_last().last() == all[0]);
    assert(all.last() == all[1]);
    let noticed = base.after_action(all[0]);
    assert(base.performed(Seq::empty()) == base);
    assert(base.performed(all.drop_last()) == noticed);
    assert(t == noticed.after_action(all[1]));
    assert forall|c: u64|
        before.members.contains_key(c) && c != joining
            && #[trigger] s.v2_connections.contains_key((room_id, c)) implies hears_once(
        s.browser_outputs,
        t.browser_outputs,
        s.v2_connections[(room_id, c)],
        seq![
            ("control"@, Field::Text("sfu-upgrade"@)),
            ("roomid"@, Field::Text(text::decimal(room_id as nat))),
            ("epoch"@, Field::Text(text::decimal(after.signal_epoch as nat))),
        ],
    ) by {
        news::lemma_belongs(s, room_id, c);
        assert(clients.contains(c));
        assert(news::speaks_to(all[0], room_id, c));
        assert(!news::speaks_to(all[1], room_id, c));
        news::lemma_spoken_actions(base, all, 0, s.v2_connections[(room_id, c)], room_id, c);
    }
    let reachable = crate::collider::model::is_reachable(s.v2_connections, room_id);
    let kept = clients.filter(reachable);
    crate::seqs::lemma_filter_contains(clients, reachable);
    assert forall|i: int| s.browser_outputs.len() <= i < t.browser_outputs.len() implies goes_to(
        #[trigger] t.browser_outputs[i],
        s.v2_connections,
        room_id,
        before.members.dom().remove(joining),
    ) by {
        let c = kept[i - s.browser_outputs.len()];
        assert(kept.contains(c));
        assert(clients.contains(c));
        assert(is_for(t.browser_outputs[i], s.v2_connections[(room_id, c)]));
    }
    text::law_one_spelling_per_number(
        text::decimal(after.signal_epoch as nat),
        after.signal_epoch,
    );
    assert(t.v2_rooms.serving(after) == v2_rooms.serving(after));
    assert forall|c: u64, message: Text| before.members.contains_key(c) implies (
    #[trigger] t.v2_rooms.send(room_id, c, after.signal_epoch, message)).1 == Ok::<
        SendResultView,
        Text,
    >(SendResultView::Sfu) by {
        assert(after.members.dom().contains(c));
    }
}

/// When the clock takes a room from its worker, every member that has a connection hears
/// of it exactly once: the frame names the room, the signal epoch that the room has from
/// then on, one higher than before, and whether the room holds this member as its offerer,
/// which is the one with the lowest number. What is sent under the announced epoch is not
/// dropped.
#[verifier::rlimit(40)]
pub proof fn law_downgrade_is_announced(s: State, now: Instant, room_id: u64)
    requires
        s.inv(),
        s.v2_rooms.actions.len() == 0,
        s.v2_rooms.rooms.contains_key(room_id),
        s.v2_rooms.rooms[room_id].mode == RoomMode::Sfu,
        s.v2_rooms.rooms[room_id].signal_epoch < u64::MAX,
        s.handle_timeout(now).v2_rooms.rooms.contains_key(room_id),
        s.handle_timeout(now).v2_rooms.rooms[room_id].mode == RoomMode::P2p,
    ensures
        ({
            let before = s.v2_rooms.rooms[room_id];
            let t = s.handle_timeout(now);
            let after = t.v2_rooms.rooms[room_id];
            let epoch = text::decimal(after.signal_epoch as nat);
            &&& after.signal_epoch == before.signal_epoch + 1
            &&& after.members.dom() == before.members.dom()
            &&& forall|c: u64|
                before.members.contains_key(c) && #[trigger] s.v2_connections.contains_key(
                    (room_id, c),
                ) ==> hears_once(
                    s.browser_outputs,
                    t.browser_outputs,
                    s.v2_connections[(room_id, c)],
                    seq![
                        ("control"@, Field::Text("sfu-downgrade"@)),
                        ("roomid"@, Field::Text(text::decimal(room_id as nat))),
                        ("epoch"@, Field::Text(epoch)),
                        ("is_initiator"@, Field::Flag(after.members[c].is_initiator)),
                    ],
                )
            &&& text::canonical(epoch) == Some(after.signal_epoch)
            &&& forall|c: u64|
                before.members.contains_key(c) ==> (#[trigger] after.members[c].is_initiator
                    <==> forall|d: u64| #[trigger] before.members.contains_key(d) ==> c <= d)
            &&& forall|c: u64, message: Text|
                before.members.contains_key(c) ==> (#[trigger] t.v2_rooms.send(
                    room_id,
                    c,
                    after.signal_epoch,
                    message,
                )).1 matches Ok(SendResultView::P2p(_))
        }),
{
    let before = s.v2_rooms.rooms[room_id];
    let (v2_rooms, promotions) = s.v2_rooms.handle_timeout(now);
    let timed = State { rooms: s.rooms.handle_timeout(now), v2_rooms, ..s };
    let told = timed.with_promotions(promotions);
    super::lemma_promotions(timed, promotions);
    super::lemma_actions_drained(told);
    let t = s.handle_timeout(now);
    let after = t.v2_rooms.rooms[room_id];
    assert(after == v2_rooms.rooms[room_id]);
    lemma_downgraded(s.v2_rooms, now, room_id);
    let all = v2_rooms.actions;
    let downgraded = ActionView::Downgraded {
        room_id,
        signal_epoch: after.signal_epoch,
        initiator_client_id: before.clients()[0],
        clients: before.clients(),
    };
    let m = choose|m: int| #[trigger]
        s.v2_rooms.says_at(v2_rooms, room_id, m) && all[m] == downgraded;
    actions::lemma_clients(before);
    let base = State {
        v2_rooms: v2::model::Table { actions: Seq::empty(), ..v2_rooms },
        ..told
    };
    assert forall|c: u64|
        before.members.contains_key(c) && #[trigger] s.v2_connections.contains_key(
            (room_id, c),
        ) implies hears_once(
        s.browser_outputs,
        t.browser_outputs,
        s.v2_connections[(room_id, c)],
        seq![
            ("control"@, Field::Text("sfu-downgrade"@)),
            ("roomid"@, Field::Text(text::decimal(room_id as nat))),
            ("epoch"@, Field::Text(text::decimal(after.signal_epoch as nat))),
            ("is_initiator"@, Field::Flag(after.members[c].is_initiator)),
        ],
    ) by {
        let k = s.v2_connections[(room_id, c)];
        assert(before.has(c));
        news::lemma_belongs(s, room_id, c);
        assert(news::belongs_to(timed, k, room_id, c));
        assert forall|i: int| 0 <= i < promotions.len() implies !((
        #[trigger] promotions[i]).room_id == room_id && promotions[i].client_id == c) by {
            assert(promotions.contains(promotions[i]));
        }
        news::lemma_silent_promotions(timed, promotions, k, room_id, c);
        assert(news::belongs_to(base, k, room_id, c));
        assert(before.clients().contains(c));
        assert(news::speaks_to(all[m], room_id, c));
        assert forall|i: int| 0 <= i < all.len() implies actions::addressees(
            #[trigger] all[i],
        ).no_duplicates() && (i != m ==> !news::speaks_to(all[i], room_id, c)) by {}
        news::lemma_spoken_actions(base, all, m, k, room_id, c);
        news::lemma_heard_after(
            s.browser_outputs,
            base.browser_outputs,
            t.browser_outputs,
            k,
            news::said_by(all[m], c)->0,
        );
    }
    text::law_one_spelling_per_number(
        text::decimal(after.signal_epoch as nat),
        after.signal_epoch,
    );
    assert forall|c: u64|
        before.members.contains_key(c) implies (#[trigger] after.members[c].is_initiator
        <==> forall|d: u64| #[trigger] before.members.contains_key(d) ==> c <= d) by {
        let low = before.clients()[0];
        assert(before.clients().contains(low));
        assert(before.members.contains_key(low));
        assert(before.has(c));
        assert forall|d: u64| #[trigger] before.members.contains_key(d) implies low <= d by {
            assert(before.has(d));
        }
    }
    assert forall|c: u64, message: Text| before.members.contains_key(c) implies (
    #[trigger] t.v2_rooms.send(room_id, c, after.signal_epoch, message)).1 matches Ok(
        SendResultView::P2p(_),
    ) by {
        assert(before.has(c));
        assert(after.members.dom().contains(c));
    }
}

/// How a room comes from its worker by the clock.
proof fn lemma_downgraded(t: v2::model::Table, now: Instant, room_id: u64)
    requires
        t.inv(),
        t.rooms.contains_key(room_id),
        t.rooms[room_id].mode == RoomMode::Sfu,
        t.handle_timeout(now).0.rooms.contains_key(room_id),
        t.handle_timeout(now).0.rooms[room_id].mode == RoomMode::P2p,
    ensures
        ({
            let before = t.rooms[room_id];
            let (u, promotions) = t.handle_timeout(now);
            let after = u.rooms[room_id];
            &&& v2::laws::dwell::is_downgraded(t, u, room_id)
            &&& t.says_once(
                u,
                room_id,
                ActionView::Downgraded {
                    room_id,
                    signal_epoch: after.signal_epoch,
                    initiator_client_id: before.clients()[0],
                    clients: before.clients(),
                },
            )
            &&& forall|p: v2::Promotion| #[trigger]
                promotions.contains(p) ==> p.room_id != room_id
        }),
{
    let room = t.rooms[room_id];
    if !t.spares(now, room_id) {
        let i = choose|i: Text| #[trigger]
            t.workers.contains_key(i) && v2::model::reached(
                t.workers[i].disconnect_deadline,
                now,
            ) && t.workers[i].assigned_rooms.contains(room_id);
        deadlines::law_lost_worker_fails_its_rooms(t, now, i, room_id);
    }
    deadlines::lemma_timeout_at(t, now, room_id);
    deadlines::lemma_expired_clients(room, now);
    let expired = room.expired_clients(now);
    if expired.len() > 0 {
        assert(expired.contains(expired[0]));
    }
    assert(room.downgrade_eligible());
    assert(v2::model::reached(room.downgrade_deadline, now));
    v2::laws::dwell::law_downgrade_follows_the_dwell(t, now, room_id);
    actions::lemma_timeout_says_downgrade(t, now, room_id);
    let (u, promotions) = t.handle_timeout(now);
    assert forall|p: v2::Promotion| #[trigger] promotions.contains(p) implies p.room_id
        != room_id by {
        if p.room_id == room_id {
            deadlines::lemma_promotion_of_direct(t, now, p);
        }
    }
}

} // verus!
