//! Events that workers send more than once.

use crate::collider::model::{Session, State};
use crate::collider::{
    AuthorityCommandView, AuthorityOperationView, BrowserInputView, BrowserOutputView,
};
use crate::messages::WsClientMsgView;
use crate::seqs::Text;
use crate::sfu;
use crate::text;
use crate::time::Instant;
use crate::v2::laws::memory;
use crate::v2::{SendResultView, EVENT_DEDUP_CAPACITY};
use vstd::prelude::*;

verus! {

/// Something that the authority is told.
#[verifier::ext_equal]
pub enum Step {
    Browser(BrowserInputView),
    RoomServer(AuthorityCommandView),
    Worker(sfu::InputView),
    Time(Instant),
}

impl Step {
    /// Whether this is an event of a worker.
    pub open spec fn is_event_of(self, instance_id: Text) -> bool {
        self matches Step::Worker(input) && memory::is_event_of(input, instance_id)
    }
}

/// How many events of a worker there are.
pub open spec fn events_of(steps: Seq<Step>, instance_id: Text) -> nat
    decreases steps.len(),
{
    if steps.len() == 0 {
        0
    } else if steps.last().is_event_of(instance_id) {
        events_of(steps.drop_last(), instance_id) + 1
    } else {
        events_of(steps.drop_last(), instance_id)
    }
}

impl State {
    pub open spec fn after(self, step: Step) -> State {
        match step {
            Step::Browser(input) => self.handle_read(input).0,
            Step::RoomServer(command) => self.handle_authority(command),
            Step::Worker(input) => self.handle_sfu_input(input).0,
            Step::Time(now) => self.handle_timeout(now),
        }
    }

    /// The state after one thing after the other.
    pub open spec fn after_all(self, steps: Seq<Step>) -> State
        decreases steps.len(),
    {
        if steps.len() == 0 {
            self
        } else {
            self.after_all(steps.drop_last()).after(steps.last())
        }
    }
}

/// An event that a worker sends again, on whatever connection it then has, is answered
/// with an acknowledgement and nothing else, as long as fewer other events of that worker
/// have come in between than are remembered. No room, no health and no browser hears of
/// it.
pub proof fn law_repeated_event_is_only_acknowledged(
    s: State,
    connection_id: u64,
    instance_id: Text,
    event: sfu::EventView,
    steps: Seq<Step>,
    current: u64,
    again: sfu::EventView,
)
    requires
        s.v2_rooms.inv(),
        s.v2_rooms.connection(instance_id) == Some(connection_id),
        event.request_id != 0,
        !s.v2_rooms.workers[instance_id].seen_events.contains(event.request_id),
        events_of(steps, instance_id) < EVENT_DEDUP_CAPACITY,
        ({
            let u = s.handle_sfu_input(
                sfu::InputView::Event { connection_id, instance_id, event },
            ).0.after_all(steps);
            u.v2_rooms.connection(instance_id) == Some(current) && u.v2_rooms.actions.len() == 0
        }),
        again.request_id == event.request_id,
    ensures
        ({
            let u = s.handle_sfu_input(
                sfu::InputView::Event { connection_id, instance_id, event },
            ).0.after_all(steps);
            u.handle_sfu_input(
                sfu::InputView::Event { connection_id: current, instance_id, event: again },
            ) == (
                u.with_output(
                    BrowserOutputView::Sfu(
                        sfu::OutputView::EventAck {
                            connection_id: current,
                            request_id: event.request_id,
                        },
                    ),
                ),
                Ok::<(), Text>(()),
            )
        }),
{
    let input = sfu::InputView::Event { connection_id, instance_id, event };
    let t = s.handle_sfu_input(input).0;
    let id = event.request_id;
    let accepted = s.v2_rooms.handle_sfu_input(input).0;
    memory::law_accepted_event_is_remembered(s.v2_rooms, connection_id, instance_id, event);
    super::lemma_actions_drained(State { v2_rooms: accepted, ..s });
    memory::lemma_kept(accepted, t.v2_rooms, instance_id, id, 0);
    lemma_after_all(t, steps, instance_id, id);
    let u = t.after_all(steps);
    let repeated = sfu::InputView::Event { connection_id: current, instance_id, event: again };
    memory::law_remembered_event_is_only_acknowledged(
        u.v2_rooms,
        current,
        instance_id,
        again,
        events_of(steps, instance_id),
    );
    let v = State { v2_rooms: u.v2_rooms.handle_sfu_input(repeated).0, ..u };
    let actions = v.v2_rooms.actions;
    assert(actions.drop_last() =~= Seq::empty());
    let drained = State {
        v2_rooms: crate::v2::model::Table { actions: Seq::empty(), ..v.v2_rooms },
        ..v
    };
    assert(drained.v2_rooms.actions =~= u.v2_rooms.actions);
    assert(drained =~= u);
    assert(drained.performed(actions.drop_last()) == drained);
}

proof fn lemma_after_all(s: State, steps: Seq<Step>, instance_id: Text, request_id: u64)
    requires
        s.v2_rooms.remembers(instance_id, request_id, 0),
        events_of(steps, instance_id) < EVENT_DEDUP_CAPACITY,
    ensures
        s.after_all(steps).v2_rooms.remembers(
            instance_id,
            request_id,
            events_of(steps, instance_id),
        ),
    decreases steps.len(),
{
    if steps.len() > 0 {
        let front = steps.drop_last();
        lemma_after_all(s, front, instance_id, request_id);
        let t = s.after_all(front);
        let later = events_of(front, instance_id);
        match steps.last() {
            Step::Browser(input) => {
                lemma_browser(t, input, instance_id);
                memory::lemma_kept(
                    t.v2_rooms,
                    t.handle_read(input).0.v2_rooms,
                    instance_id,
                    request_id,
                    later,
                );
            },
            Step::RoomServer(command) => {
                lemma_room_server(t, command, instance_id);
                memory::lemma_kept(
                    t.v2_rooms,
                    t.handle_authority(command).v2_rooms,
                    instance_id,
                    request_id,
                    later,
                );
            },
            Step::Worker(input) => {
                memory::law_workers_keep_the_memory(
                    t.v2_rooms,
                    input,
                    instance_id,
                    request_id,
                    later,
                );
                let v2_rooms = t.v2_rooms.handle_sfu_input(input).0;
                super::lemma_actions_drained(State { v2_rooms, ..t });
                memory::lemma_kept(
                    v2_rooms,
                    t.handle_sfu_input(input).0.v2_rooms,
                    instance_id,
                    request_id,
                    events_of(steps, instance_id),
                );
            },
            Step::Time(now) => {
                lemma_time(t, now, instance_id);
                memory::lemma_kept(
                    t.v2_rooms,
                    t.handle_timeout(now).v2_rooms,
                    instance_id,
                    request_id,
                    later,
                );
            },
        }
    }
}

proof fn lemma_browser(s: State, input: BrowserInputView, instance_id: Text)
    ensures
        s.v2_rooms.keeps_memory(s.handle_read(input).0.v2_rooms, instance_id),
{
    match input {
        BrowserInputView::Connected { connection_id } => {},
        BrowserInputView::Text { connection_id, text, now } => {
            let frame = WsClientMsgView::read(text);
            if frame is Ok {
                lemma_frame(s, connection_id, frame->Ok_0, now, instance_id);
            }
        },
        BrowserInputView::Disconnected { connection_id, now } => {
            if s.sessions.contains_key(connection_id) {
                match s.sessions[connection_id] {
                    Session::RegisteredV2 { room_id, client_id } => {
                        memory::law_others_keep_the_memory(
                            s.v2_rooms,
                            instance_id,
                            0,
                            now,
                            room_id,
                            client_id,
                            0,
                            Seq::empty(),
                        );
                        lemma_draining_keeps_workers();
                    },
                    _ => {},
                }
            }
        },
    }
}

proof fn lemma_frame(
    s: State,
    connection_id: u64,
    msg: WsClientMsgView,
    now: Instant,
    instance_id: Text,
)
    ensures
        s.v2_rooms.keeps_memory(
            s.handle_frame(connection_id, Ok(msg), now).0.v2_rooms,
            instance_id,
        ),
{
    let room_id = text::canonical(msg.roomid);
    let client_id = text::canonical(msg.clientid);
    if room_id is Some && client_id is Some {
        memory::law_others_keep_the_memory(
            s.v2_rooms,
            instance_id,
            0,
            now,
            room_id->0,
            client_id->0,
            0,
            msg.token,
        );
    }
    if s.sessions.contains_key(connection_id) {
        match s.sessions[connection_id] {
            Session::RegisteredV2 { room_id, client_id } => {
                let epoch = crate::collider::model::canonical_epoch(msg.epoch);
                if epoch is Some {
                    let (v2_rooms, result) = s.v2_rooms.send(
                        room_id,
                        client_id,
                        epoch->0,
                        msg.msg,
                    );
                    memory::law_others_keep_the_memory(
                        s.v2_rooms,
                        instance_id,
                        0,
                        now,
                        room_id,
                        client_id,
                        epoch->0,
                        msg.msg,
                    );
                    let t = State { v2_rooms, ..s };
                    super::lemma_actions_drained(t);
                    match result {
                        Ok(SendResultView::P2p(Some(delivery))) => {
                            super::lemma_actions_drained(t.with_delivery(delivery));
                        },
                        _ => {},
                    }
                }
            },
            _ => {},
        }
    }
}

proof fn lemma_room_server(s: State, command: AuthorityCommandView, instance_id: Text)
    ensures
        s.v2_rooms.keeps_memory(s.handle_authority(command).v2_rooms, instance_id),
{
    lemma_draining_keeps_workers();
    match command.operation {
        AuthorityOperationView::AdmitV2 { room_id, client_id, admission_token, now } => {
            memory::law_others_keep_the_memory(
                s.v2_rooms,
                instance_id,
                command.request_id,
                now,
                room_id,
                client_id,
                0,
                admission_token,
            );
        },
        AuthorityOperationView::RemoveV2 { room_id, client_id, admission_token } => {
            memory::law_others_keep_the_memory(
                s.v2_rooms,
                instance_id,
                command.request_id,
                Instant { nanos: 0 },
                room_id,
                client_id,
                0,
                admission_token,
            );
        },
        _ => {},
    }
}

/// Performing actions does not concern the workers.
proof fn lemma_draining_keeps_workers()
    ensures
        forall|s: State|
            (#[trigger] s.with_actions_drained()).v2_rooms.workers == s.v2_rooms.workers,
{
    assert forall|s: State|
        (#[trigger] s.with_actions_drained()).v2_rooms.workers == s.v2_rooms.workers by {
        super::lemma_actions_drained(s);
    }
}

proof fn lemma_time(s: State, now: Instant, instance_id: Text)
    ensures
        s.v2_rooms.keeps_memory(s.handle_timeout(now).v2_rooms, instance_id),
{
    memory::law_others_keep_the_memory(
        s.v2_rooms,
        instance_id,
        0,
        now,
        0,
        0,
        0,
        Seq::empty(),
    );
    let (v2_rooms, promotions) = s.v2_rooms.handle_timeout(now);
    let t = State { rooms: s.rooms.handle_timeout(now), v2_rooms, ..s };
    super::lemma_promotions(t, promotions);
    super::lemma_actions_drained(t.with_promotions(promotions));
}

} // verus!
