//! What room servers and browsers of V2 rooms get.

use super::news;
use super::news::{hears_once, is_frame};
use crate::collider::model;
use crate::collider::model::{Session, State};
use crate::collider::{
    AuthorityCommandView, AuthorityOperationView, AuthorityResponseView, AuthorityResultView,
    BrowserInputView, BrowserOutputView,
};
use crate::messages;
use crate::messages::WsClientMsgView;
use crate::seqs::Text;
use crate::sfu;
use crate::sfu::{EventKindView, EventView, InputView, OutputView};
use crate::text;
use crate::time::Instant;
use crate::v2;
use crate::v2::laws::members::is_connected;
use crate::v2::laws::sessions;
use crate::v2::{
    ActionView, AdmissionResultView, RemovalResult, RoomMode, SendResultView,
};
use crate::wire;
use crate::wire::Field;
use vstd::prelude::*;

verus! {

/// The table without what it has to do.
pub open spec fn done(t: v2::model::Table) -> v2::model::Table {
    v2::model::Table { actions: Seq::empty(), ..t }
}

/// One action that speaks to a worker is an output.
proof fn lemma_one_command(s: State, output: OutputView)
    requires
        s.v2_rooms.actions == seq![ActionView::Sfu(output)],
    ensures
        s.with_actions_drained() == (State {
            v2_rooms: done(s.v2_rooms),
            browser_outputs: s.browser_outputs.push(BrowserOutputView::Sfu(output)),
            ..s
        }),
{
    let all = s.v2_rooms.actions;
    let base = State { v2_rooms: done(s.v2_rooms), ..s };
    assert(all.drop_last() =~= Seq::empty());
    assert(base.performed(Seq::empty()) == base);
    assert(all.last() == all[0]);
}

/// The answer to the admission of a V2 client is what the rooms say of it: the mode, the
/// epoch, the token and whether the client offers, or why it is refused. Where a worker has
/// to take the client first, it is asked, and there is no answer yet. No browser hears of
/// it.
pub proof fn law_v2_admission_is_answered(
    s: State,
    request_id: u64,
    room_id: u64,
    client_id: u64,
    token: Text,
    now: Instant,
)
    requires
        s.v2_rooms.inv(),
        s.v2_rooms.actions.len() == 0,
    ensures
        ({
            let (rooms, result) = s.v2_rooms.admit_client(
                request_id,
                now,
                room_id,
                client_id,
                token,
            );
            let t = s.handle_authority(
                AuthorityCommandView {
                    request_id,
                    operation: AuthorityOperationView::AdmitV2 {
                        room_id,
                        client_id,
                        admission_token: token,
                        now,
                    },
                },
            );
            match result {
                Ok(AdmissionResultView::Complete(admission)) => {
                    t == (State {
                        v2_rooms: rooms,
                        authority_responses: s.authority_responses.push(
                            AuthorityResponseView {
                                request_id,
                                result: AuthorityResultView::AdmittedV2 {
                                    mode: admission.mode,
                                    signal_epoch: admission.signal_epoch,
                                    admission_token: admission.admission_token,
                                    is_initiator: admission.is_initiator,
                                },
                            },
                        ),
                        ..s
                    })
                },
                Ok(AdmissionResultView::Pending) => {
                    &&& t == (State {
                        v2_rooms: done(rooms),
                        browser_outputs: t.browser_outputs,
                        ..s
                    })
                    &&& t.browser_outputs.len() == s.browser_outputs.len() + 1
                    &&& s.browser_outputs.is_prefix_of(t.browser_outputs)
                    &&& rooms.actions.len() == 1
                    &&& rooms.actions[0] matches ActionView::Sfu(command)
                    &&& t.browser_outputs.last() == BrowserOutputView::Sfu(command)
                },
                Err(reason) => {
                    t == (State {
                        v2_rooms: s.v2_rooms,
                        authority_responses: s.authority_responses.push(
                            AuthorityResponseView {
                                request_id,
                                result: AuthorityResultView::Error { result: reason },
                            },
                        ),
                        ..s
                    })
                },
            }
        }),
{
    let (rooms, result) = s.v2_rooms.admit_client(request_id, now, room_id, client_id, token);
    let t = State { v2_rooms: rooms, ..s };
    assert(s.v2_rooms.actions =~= Seq::empty());
    match result {
        Ok(AdmissionResultView::Complete(admission)) => {
            super::lemma_actions_drained(
                t.with_response(request_id, AuthorityResultView::admitted_v2(admission)),
            );
        },
        Ok(AdmissionResultView::Pending) => {
            lemma_pending_admission(s.v2_rooms, request_id, now, room_id, client_id, token);
            let output = rooms.actions[0]->Sfu_0;
            assert(rooms.actions =~= seq![ActionView::Sfu(output)]);
            lemma_one_command(t, output);
        },
        Err(reason) => {
            super::lemma_actions_drained(
                t.with_response(request_id, AuthorityResultView::Error { result: reason }),
            );
        },
    }
}

/// An admission that waits for a worker is one command.
proof fn lemma_pending_admission(
    t: v2::model::Table,
    request_id: u64,
    now: Instant,
    room_id: u64,
    client_id: u64,
    token: Text,
)
    requires
        t.inv(),
        t.actions.len() == 0,
        t.admit_client(request_id, now, room_id, client_id, token).1 == Ok::<
            AdmissionResultView,
            Text,
        >(AdmissionResultView::Pending),
    ensures
        ({
            let u = t.admit_client(request_id, now, room_id, client_id, token).0;
            u.actions.len() == 1 && u.actions[0] is Sfu
        }),
{
    let room = t.rooms[room_id];
    if room.mode == RoomMode::P2p {
        v2::laws::upgrades::law_third_join_starts_upgrade(
            t,
            request_id,
            now,
            room_id,
            client_id,
            token,
        );
    }
}

/// The answer to the removal of a V2 client. Where it is done at once, the connection of
/// the client, if it has one, is closed and forgotten, and the survivor, if it is connected
/// and has a connection, then gets one frame that promotes it under the epoch of the room.
/// Where a worker has to let the client go first, it is asked, and there is no answer yet.
/// A refused removal changes nothing.
#[verifier::rlimit(40)]
pub proof fn law_v2_removal_is_answered(
    s: State,
    request_id: u64,
    room_id: u64,
    client_id: u64,
    token: Text,
)
    requires
        s.v2_rooms.actions.len() == 0,
    ensures
        ({
            let (rooms, result) = s.v2_rooms.remove(request_id, room_id, client_id, token);
            let t = s.handle_authority(
                AuthorityCommandView {
                    request_id,
                    operation: AuthorityOperationView::RemoveV2 {
                        room_id,
                        client_id,
                        admission_token: token,
                    },
                },
            );
            let key = (room_id, client_id);
            let id = s.v2_connections[key];
            let connected = s.v2_connections.contains_key(key);
            match result {
                Ok(RemovalResult::Complete(promotion)) => {
                    let closed = if connected {
                        s.browser_outputs.push(BrowserOutputView::Close { connection_id: id })
                    } else {
                        s.browser_outputs
                    };
                    &&& t == (State {
                        v2_rooms: rooms,
                        v2_connections: s.v2_connections.remove(key),
                        sessions: if connected {
                            s.sessions.remove(id)
                        } else {
                            s.sessions
                        },
                        browser_outputs: t.browser_outputs,
                        authority_responses: s.authority_responses.push(
                            AuthorityResponseView {
                                request_id,
                                result: AuthorityResultView::RemovedV2,
                            },
                        ),
                        ..s
                    })
                    &&& match promotion {
                        Some(p) if p.client_id != client_id && s.v2_connections.contains_key(
                            (p.room_id, p.client_id),
                        ) => {
                            &&& t.browser_outputs.len() == closed.len() + 1
                            &&& closed.is_prefix_of(t.browser_outputs)
                            &&& is_frame(
                                t.browser_outputs.last(),
                                s.v2_connections[(p.room_id, p.client_id)],
                                seq![
                                    ("control"@, Field::Text("p2p-promote"@)),
                                    ("roomid"@, Field::Text(text::decimal(p.room_id as nat))),
                                    ("epoch"@, Field::Text(text::decimal(p.signal_epoch as nat))),
                                    ("is_initiator"@, Field::Flag(true)),
                                ],
                            )
                        },
                        Some(p) => p.client_id != client_id ==> t.browser_outputs == closed,
                        None => t.browser_outputs == closed,
                    }
                },
                Ok(RemovalResult::Pending) => {
                    &&& t == (State {
                        v2_rooms: done(rooms),
                        browser_outputs: t.browser_outputs,
                        ..s
                    })
                    &&& rooms.actions.len() == 1
                    &&& rooms.actions[0] matches ActionView::Sfu(command)
                    &&& t.browser_outputs == s.browser_outputs.push(
                        BrowserOutputView::Sfu(command),
                    )
                },
                Err(reason) => {
                    t == (State {
                        v2_rooms: s.v2_rooms,
                        authority_responses: s.authority_responses.push(
                            AuthorityResponseView {
                                request_id,
                                result: AuthorityResultView::Error { result: reason },
                            },
                        ),
                        ..s
                    })
                },
            }
        }),
{
    let (rooms, result) = s.v2_rooms.remove(request_id, room_id, client_id, token);
    let t = State { v2_rooms: rooms, ..s };
    assert(s.v2_rooms.actions =~= Seq::empty());
    match result {
        Ok(RemovalResult::Complete(promotion)) => {
            let closed = t.with_v2_client_closed(room_id, client_id);
            if !s.v2_connections.contains_key((room_id, client_id)) {
                assert(s.v2_connections.remove((room_id, client_id)) =~= s.v2_connections);
            }
            let told = match promotion {
                Some(promotion) => closed.with_promotion(promotion),
                None => closed,
            };
            super::lemma_actions_drained(
                told.with_response(request_id, AuthorityResultView::RemovedV2),
            );
            if promotion is Some {
                let p = promotion->0;
                wire::law_offer_frame_carries_its_fields(
                    "p2p-promote"@,
                    text::decimal(p.room_id as nat),
                    text::decimal(p.signal_epoch as nat),
                    true,
                );
            }
        },
        Ok(RemovalResult::Pending) => {
            let output = rooms.actions[0]->Sfu_0;
            assert(rooms.actions =~= seq![ActionView::Sfu(output)]);
            lemma_one_command(t, output);
        },
        Err(reason) => {
            super::lemma_actions_drained(
                t.with_response(request_id, AuthorityResultView::Error { result: reason }),
            );
        },
    }
}

/// A room server is told how many members a V2 room has and how it runs; a room that does
/// not exist has none and is direct.
pub proof fn law_v2_occupancy_is_answered(s: State, request_id: u64, room_id: u64)
    requires
        s.v2_rooms.actions.len() == 0,
    ensures
        s.handle_authority(
            AuthorityCommandView {
                request_id,
                operation: AuthorityOperationView::OccupancyV2 { room_id },
            },
        ) == (State {
            authority_responses: s.authority_responses.push(
                AuthorityResponseView {
                    request_id,
                    result: if s.v2_rooms.rooms.contains_key(room_id) {
                        AuthorityResultView::OccupancyV2 {
                            count: s.v2_rooms.rooms[room_id].members.dom().len(),
                            mode: s.v2_rooms.rooms[room_id].mode,
                        }
                    } else {
                        AuthorityResultView::OccupancyV2 { count: 0, mode: RoomMode::P2p }
                    },
                },
            ),
            ..s
        }),
{
    super::lemma_actions_drained(
        s.with_response(
            request_id,
            AuthorityResultView::OccupancyV2 {
                count: s.v2_rooms.occupancy(room_id).0,
                mode: s.v2_rooms.occupancy(room_id).1,
            },
        ),
    );
}

/// How a mode is called in frames.
pub open spec fn name_of(mode: RoomMode) -> Text {
    match mode {
        RoomMode::P2p => "p2p"@,
        RoomMode::Upgrading => "upgrading"@,
        RoomMode::Sfu => "sfu"@,
        RoomMode::Failed => "failed"@,
    }
}

/// A V2 browser that registers learns first the room, the epoch and the mode of the room,
/// and, in a direct room, whether it offers; and then gets a frame for each message that is
/// queued for it, in order and whole. From then on the connection belongs to the client.
#[verifier::rlimit(40)]
pub proof fn law_v2_registration_is_answered(
    s: State,
    connection_id: u64,
    msg: WsClientMsgView,
    now: Instant,
    room_id: u64,
    client_id: u64,
)
    requires
        msg.cmd == "register"@,
        msg.ver == Some(2u8),
        msg.roomid == text::decimal(room_id as nat),
        msg.clientid == text::decimal(client_id as nat),
        msg.token.len() > 0,
        !s.is_registered(connection_id),
        s.total_websocket_connections < u64::MAX,
        s.v2_rooms.register(room_id, client_id, msg.token).1 is Ok,
    ensures
        ({
            let (rooms, answer) = s.v2_rooms.register(room_id, client_id, msg.token);
            let registration = answer->Ok_0;
            let queued = registration.queued_messages;
            let (t, result) = s.handle_frame(connection_id, Ok(msg), now);
            let n = s.browser_outputs.len();
            let always = seq![
                ("control"@, Field::Text("registered"@)),
                ("roomid"@, Field::Text(text::decimal(room_id as nat))),
                ("epoch"@, Field::Text(text::decimal(registration.signal_epoch as nat))),
                ("mode"@, Field::Text(name_of(registration.mode))),
            ];
            &&& result is Ok
            &&& t == (State {
                v2_rooms: rooms,
                sessions: s.sessions.insert(
                    connection_id,
                    Session::RegisteredV2 { room_id, client_id },
                ),
                v2_connections: s.v2_connections.insert((room_id, client_id), connection_id),
                total_websocket_connections: (s.total_websocket_connections + 1) as u64,
                browser_outputs: t.browser_outputs,
                ..s
            })
            &&& s.browser_outputs.is_prefix_of(t.browser_outputs)
            &&& t.browser_outputs.len() == n + 1 + queued.len()
            &&& is_frame(
                t.browser_outputs[n as int],
                connection_id,
                match registration.is_initiator {
                    Some(b) => always.push(("is_initiator"@, Field::Flag(b))),
                    None => always,
                },
            )
            &&& forall|i: int|
                0 <= i < queued.len() ==> is_frame(
                    #[trigger] t.browser_outputs[n + 1 + i],
                    connection_id,
                    seq![
                        ("msg"@, Field::Text(queued[i])),
                        ("error"@, Field::Text(Seq::empty())),
                    ],
                )
        }),
{
    text::law_one_spelling_per_number(msg.roomid, room_id);
    text::law_one_spelling_per_number(msg.clientid, client_id);
    let registration = s.v2_rooms.register(room_id, client_id, msg.token).1->Ok_0;
    let queued = registration.queued_messages;
    super::law_v2_snapshot_precedes_the_queue(s, connection_id, msg, now, room_id, client_id);
    wire::law_registered_frame_carries_its_fields(
        "registered"@,
        text::decimal(room_id as nat),
        text::decimal(registration.signal_epoch as nat),
        model::mode_name(registration.mode),
        registration.is_initiator,
    );
    let t = s.handle_frame(connection_id, Ok(msg), now).0;
    let n = s.browser_outputs.len();
    assert forall|i: int| 0 <= i < queued.len() implies is_frame(
        #[trigger] t.browser_outputs[n + 1 + i],
        connection_id,
        seq![("msg"@, Field::Text(queued[i])), ("error"@, Field::Text(Seq::empty()))],
    ) by {
        wire::law_relay_frame_carries_the_payload(queued[i], queued[i]);
    }
    assert forall|i: int| 0 <= i < n implies s.browser_outputs[i] == t.browser_outputs[i] by {
        assert(t.browser_outputs.take(n as int)[i] == t.browser_outputs[i]);
    }
}

/// What is said to a connection, and that it ends.
pub open spec fn is_turned_away(s: State, t: State, connection_id: u64, error: Text) -> bool {
    let n = s.browser_outputs.len() as int;
    &&& t == (State {
        browser_outputs: t.browser_outputs,
        websocket_errors: t.websocket_errors,
        ..s
    })
    &&& t.websocket_errors == (if s.websocket_errors < u64::MAX {
        (s.websocket_errors + 1) as u64
    } else {
        u64::MAX
    })
    &&& s.browser_outputs.is_prefix_of(t.browser_outputs)
    &&& t.browser_outputs.len() == n + 2
    &&& is_frame(
        t.browser_outputs[n],
        connection_id,
        seq![("msg"@, Field::Text(Seq::empty())), ("error"@, Field::Text(error))],
    )
    &&& t.browser_outputs[n + 1] == (BrowserOutputView::Close { connection_id })
}

proof fn lemma_turned_away(s: State, connection_id: u64, error: Text)
    ensures
        is_turned_away(s, s.failed(connection_id, error), connection_id, error),
{
    wire::law_relay_frame_carries_the_payload(error, error);
    let t = s.failed(connection_id, error);
    assert(t.browser_outputs[s.browser_outputs.len() as int] == (BrowserOutputView::Text {
        connection_id,
        text: messages::wire_err(error),
    }));
}

/// What a browser that breaks the rules is told before its connection ends; nothing else
/// changes. A frame that cannot be read or asks for something unknown, another version, a
/// second registration, one without room or client, a message of a connection that is not
/// registered, and an empty message.
#[verifier::rlimit(40)]
pub proof fn law_broken_rules_are_named(
    s: State,
    connection_id: u64,
    frame: Result<WsClientMsgView, Text>,
    now: Instant,
)
    ensures
        ({
            let t = s.handle_frame(connection_id, frame, now).0;
            let known = s.sessions.contains_key(connection_id);
            let registered = known && !(s.sessions[connection_id] is Connected);
            match frame {
                Err(e) => is_turned_away(
                    s,
                    t,
                    connection_id,
                    "websocket.JSON.Receive error: "@ + e,
                ),
                Ok(msg) => {
                    let register = msg.cmd == "register"@;
                    let send = msg.cmd == "send"@;
                    let first = msg.ver is None;
                    &&& !register && !send ==> is_turned_away(
                        s,
                        t,
                        connection_id,
                        "Invalid message: unexpected 'cmd'"@,
                    )
                    &&& register && !first && msg.ver != Some(2u8) ==> is_turned_away(
                        s,
                        t,
                        connection_id,
                        "INVALID_VERSION"@,
                    )
                    &&& register && (first || msg.ver == Some(2u8)) && registered ==> is_turned_away(
                        s,
                        t,
                        connection_id,
                        "Duplicated register request"@,
                    )
                    &&& register && first && !registered && (msg.roomid.len() == 0
                        || msg.clientid.len() == 0) ==> is_turned_away(
                        s,
                        t,
                        connection_id,
                        "Invalid register request: missing 'clientid' or 'roomid'"@,
                    )
                    &&& send && !known ==> is_turned_away(
                        s,
                        t,
                        connection_id,
                        "Client not registered"@,
                    )
                    &&& send && known && msg.msg.len() == 0 ==> is_turned_away(
                        s,
                        t,
                        connection_id,
                        "Invalid send request: missing 'msg'"@,
                    )
                    &&& send && known && !registered && msg.msg.len() > 0 ==> is_turned_away(
                        s,
                        t,
                        connection_id,
                        "Client not registered"@,
                    )
                },
            }
        }),
        s.handle_frame(connection_id, frame, now).1 is Err ==> frame is Ok && frame->Ok_0.cmd
            == "send"@,
{
    reveal_strlit("register");
    reveal_strlit("send");
    assert("register"@.len() != "send"@.len());
    match frame {
        Err(e) => lemma_turned_away(s, connection_id, "websocket.JSON.Receive error: "@ + e),
        Ok(_) => {
            lemma_turned_away(s, connection_id, "Invalid message: unexpected 'cmd'"@);
            lemma_turned_away(s, connection_id, "INVALID_VERSION"@);
            lemma_turned_away(s, connection_id, "Duplicated register request"@);
            lemma_turned_away(
                s,
                connection_id,
                "Invalid register request: missing 'clientid' or 'roomid'"@,
            );
            lemma_turned_away(s, connection_id, "Client not registered"@);
            lemma_turned_away(s, connection_id, "Invalid send request: missing 'msg'"@);
        },
    }
}

/// Which V2 registrations are turned away, and with what: those that do not name the room
/// or the client by a number, those without a token, and those that the rooms refuse.
pub proof fn law_v2_registration_is_turned_away(
    s: State,
    connection_id: u64,
    msg: WsClientMsgView,
    now: Instant,
    room_id: u64,
    client_id: u64,
)
    requires
        msg.cmd == "register"@,
        msg.ver == Some(2u8),
        !s.is_registered(connection_id),
    ensures
        ({
            let t = s.handle_frame(connection_id, Ok(msg), now).0;
            let room = msg.roomid == text::decimal(room_id as nat);
            let client = msg.clientid == text::decimal(client_id as nat);
            &&& (forall|n: u64| msg.roomid != #[trigger] text::decimal(n as nat)) ==> is_turned_away(
                s,
                t,
                connection_id,
                "INVALID_ROOM_ID"@,
            )
            &&& room && (forall|n: u64| msg.clientid != #[trigger] text::decimal(n as nat))
                ==> is_turned_away(s, t, connection_id, "INVALID_CLIENT_ID"@)
            &&& room && client && msg.token.len() == 0 ==> is_turned_away(
                s,
                t,
                connection_id,
                "UNAUTHORIZED"@,
            )
            &&& room && client && msg.token.len() > 0 && s.v2_rooms.register(
                room_id,
                client_id,
                msg.token,
            ).1 is Err ==> is_turned_away(
                s,
                t,
                connection_id,
                s.v2_rooms.register(room_id, client_id, msg.token).1->Err_0,
            )
        }),
{
    text::law_one_spelling_per_number(msg.roomid, room_id);
    text::law_one_spelling_per_number(msg.clientid, client_id);
    lemma_turned_away(s, connection_id, "INVALID_ROOM_ID"@);
    lemma_turned_away(s, connection_id, "INVALID_CLIENT_ID"@);
    lemma_turned_away(s, connection_id, "UNAUTHORIZED"@);
    v2::laws::browsers::law_registration_needs_the_token(
        s.v2_rooms,
        room_id,
        client_id,
        msg.token,
    );
    let result = s.v2_rooms.register(room_id, client_id, msg.token).1;
    if result is Err {
        lemma_turned_away(s, connection_id, result->Err_0);
    }
}

/// A message of a V2 browser under an epoch, which it gives in decimal notation, is what
/// the rooms make of it: a direct peer with a connection gets it whole in one frame, or it
/// is queued; in an SFU room the worker gets it; and what the rooms refuse is an error for
/// the driver. Without such an epoch nothing happens.
#[verifier::rlimit(40)]
pub proof fn law_v2_message_is_passed_on(
    s: State,
    connection_id: u64,
    msg: WsClientMsgView,
    now: Instant,
    room_id: u64,
    client_id: u64,
    epoch: u64,
)
    requires
        s.v2_rooms.actions.len() == 0,
        s.sessions.contains_key(connection_id),
        s.sessions[connection_id] == (Session::RegisteredV2 { room_id, client_id }),
        msg.cmd == "send"@,
        msg.msg.len() > 0,
    ensures
        ({
            let (t, result) = s.handle_frame(connection_id, Ok(msg), now);
            let (rooms, sent) = s.v2_rooms.send(room_id, client_id, epoch, msg.msg);
            &&& (msg.epoch is None || forall|n: u64|
                msg.epoch != Some(#[trigger] text::decimal(n as nat))) ==> t == s && result is Ok
            &&& msg.epoch == Some(text::decimal(epoch as nat)) ==> match sent {
                Err(e) => result == Err::<(), Text>(e) && t == s,
                Ok(SendResultView::Dropped) => result is Ok && t == s,
                Ok(SendResultView::P2p(None)) => result is Ok && t == (State {
                    v2_rooms: rooms,
                    ..s
                }),
                Ok(SendResultView::P2p(Some(delivery))) => {
                    let key = (delivery.room_id, delivery.client_id);
                    &&& result is Ok
                    &&& t == (State { browser_outputs: t.browser_outputs, ..s })
                    &&& if s.v2_connections.contains_key(key) {
                        &&& t.browser_outputs.len() == s.browser_outputs.len() + 1
                        &&& s.browser_outputs.is_prefix_of(t.browser_outputs)
                        &&& is_frame(
                            t.browser_outputs.last(),
                            s.v2_connections[key],
                            seq![
                                ("msg"@, Field::Text(delivery.message)),
                                ("error"@, Field::Text(Seq::empty())),
                            ],
                        )
                    } else {
                        t.browser_outputs == s.browser_outputs
                    }
                },
                Ok(SendResultView::Sfu) => {
                    &&& result is Ok
                    &&& rooms.actions.len() == 1
                    &&& rooms.actions[0] matches ActionView::Sfu(command)
                    &&& t == (State {
                        v2_rooms: done(rooms),
                        browser_outputs: s.browser_outputs.push(BrowserOutputView::Sfu(command)),
                        ..s
                    })
                },
            }
        }),
{
    reveal_strlit("register");
    reveal_strlit("send");
    assert("register"@.len() != "send"@.len());
    assert(s.v2_rooms.actions =~= Seq::empty());
    let (rooms, sent) = s.v2_rooms.send(room_id, client_id, epoch, msg.msg);
    let t = State { v2_rooms: rooms, ..s };
    if msg.epoch is Some {
        text::law_one_spelling_per_number(msg.epoch->0, epoch);
    }
    if msg.epoch == Some(text::decimal(epoch as nat)) {
        match sent {
            Ok(SendResultView::P2p(Some(delivery))) => {
                wire::law_relay_frame_carries_the_payload(delivery.message, delivery.message);
                super::lemma_actions_drained(t.with_delivery(delivery));
            },
            Ok(SendResultView::Sfu) => {
                let output = rooms.actions[0]->Sfu_0;
                assert(rooms.actions =~= seq![ActionView::Sfu(output)]);
                lemma_one_command(t, output);
            },
            _ => {
                super::lemma_actions_drained(t);
            },
        }
    }
}

/// A V2 browser that is gone: its connection is forgotten, its member is what the rooms make
/// of the loss, and whatever they ask of the worker goes out. No browser hears of it.
pub proof fn law_v2_disconnect_is_passed_on(
    s: State,
    connection_id: u64,
    now: Instant,
    room_id: u64,
    client_id: u64,
)
    requires
        s.v2_rooms.actions.len() == 0,
        s.sessions.contains_key(connection_id),
        s.sessions[connection_id] == (Session::RegisteredV2 { room_id, client_id }),
        s.v2_connections.contains_key((room_id, client_id)),
        s.v2_connections[(room_id, client_id)] == connection_id,
    ensures
        ({
            let rooms = s.v2_rooms.deregister(now, room_id, client_id);
            let (t, result) = s.handle_read(BrowserInputView::Disconnected { connection_id, now });
            &&& result is Ok
            &&& t == (State {
                v2_rooms: done(rooms),
                sessions: s.sessions.remove(connection_id),
                v2_connections: s.v2_connections.remove((room_id, client_id)),
                browser_outputs: t.browser_outputs,
                ..s
            })
            &&& rooms.actions.len() == 0 ==> t.browser_outputs == s.browser_outputs
            &&& rooms.actions.len() > 0 ==> {
                &&& rooms.actions.len() == 1
                &&& rooms.actions[0] matches ActionView::Sfu(command)
                &&& t.browser_outputs == s.browser_outputs.push(BrowserOutputView::Sfu(command))
            }
        }),
{
    let rooms = s.v2_rooms.deregister(now, room_id, client_id);
    assert(s.v2_rooms.actions =~= Seq::empty());
    let gone = State {
        v2_connections: s.v2_connections.remove((room_id, client_id)),
        v2_rooms: rooms,
        sessions: s.sessions.remove(connection_id),
        ..s
    };
    if rooms.actions.len() > 0 {
        let output = rooms.actions[0]->Sfu_0;
        assert(rooms.actions =~= seq![ActionView::Sfu(output)]);
        lemma_one_command(gone, output);
    } else {
        super::lemma_actions_drained(gone);
        assert(rooms.actions =~= Seq::empty());
    }
}

/// A new connection is known, and nothing else changes.
pub proof fn law_connection_is_known(s: State, connection_id: u64)
    ensures
        s.handle_read(BrowserInputView::Connected { connection_id }) == (
            State { sessions: s.sessions.insert(connection_id, Session::Connected), ..s },
            Ok::<(), Text>(()),
        ),
{
}

/// A signal that a worker sends for a current member reaches its connection whole, in one
/// frame, and is then acknowledged to the worker; a member without a connection misses it.
pub proof fn law_signal_reaches_the_browser(
    s: State,
    connection_id: u64,
    instance_id: Text,
    request_id: u64,
    signal: sfu::SignalView,
)
    requires
        s.v2_rooms.inv(),
        s.v2_rooms.actions.len() == 0,
        is_connected(s.v2_rooms, instance_id, connection_id),
        request_id != 0,
        !s.v2_rooms.workers[instance_id].seen_events.contains(request_id),
        s.v2_rooms.rooms.contains_key(signal.room_id),
        ({
            let room = s.v2_rooms.rooms[signal.room_id];
            &&& room.mode == RoomMode::Sfu
            &&& room.assigned_instance == Some(instance_id)
            &&& room.assignment_epoch == signal.assignment_epoch
            &&& room.members.contains_key(signal.client_id)
            &&& room.members[signal.client_id].lifecycle_id == signal.lifecycle_id
        }),
    ensures
        ({
            let (t, result) = s.handle_sfu_input(
                InputView::Event {
                    connection_id,
                    instance_id,
                    event: EventView { request_id, event: EventKindView::Signal(signal) },
                },
            );
            let key = (signal.room_id, signal.client_id);
            let n = s.browser_outputs.len() as int;
            let ack = BrowserOutputView::Sfu(OutputView::EventAck { connection_id, request_id });
            &&& result is Ok
            &&& t == (State { v2_rooms: t.v2_rooms, browser_outputs: t.browser_outputs, ..s })
            &&& t.v2_rooms.rooms == s.v2_rooms.rooms
            &&& s.browser_outputs.is_prefix_of(t.browser_outputs)
            &&& if s.v2_connections.contains_key(key) {
                &&& t.browser_outputs.len() == n + 2
                &&& is_frame(
                    t.browser_outputs[n],
                    s.v2_connections[key],
                    seq![
                        ("msg"@, Field::Text(signal.message_json)),
                        ("error"@, Field::Text(Seq::empty())),
                    ],
                )
                &&& t.browser_outputs[n + 1] == ack
            } else {
                t.browser_outputs == s.browser_outputs.push(ack)
            }
        }),
{
    let input = InputView::Event {
        connection_id,
        instance_id,
        event: EventView { request_id, event: EventKindView::Signal(signal) },
    };
    sessions::law_signal_is_delivered_to_its_member(
        s.v2_rooms,
        connection_id,
        instance_id,
        request_id,
        signal,
    );
    let rooms = s.v2_rooms.handle_sfu_input(input).0;
    super::lemma_actions_drained(State { v2_rooms: rooms, ..s });
    let base = State { v2_rooms: done(rooms), ..s };
    let all = rooms.actions;
    assert(all.len() == 2);
    assert(all.drop_last().drop_last() =~= Seq::empty());
    assert(all.drop_last().last() == all[0]);
    assert(all.last() == all[1]);
    assert(base.performed(Seq::empty()) == base);
    assert(base.performed(all.drop_last()) == base.after_action(all[0]));
    wire::law_relay_frame_carries_the_payload(signal.message_json, signal.message_json);
}

/// A failure that a worker reports of a room is heard once by every member that has a
/// connection, with the reason of the worker, and by nobody else; the worker gets its
/// acknowledgement.
pub proof fn law_reported_failure_is_told(
    s: State,
    connection_id: u64,
    instance_id: Text,
    request_id: u64,
    event: EventKindView,
)
    requires
        s.inv(),
        s.v2_rooms.actions.len() == 0,
        is_connected(s.v2_rooms, instance_id, connection_id),
        request_id != 0,
        !s.v2_rooms.workers[instance_id].seen_events.contains(request_id),
        event is Failure,
        event->Failure_room_id is Some,
        s.v2_rooms.rooms.contains_key(event->Failure_room_id->0),
    ensures
        ({
            let room_id = event->Failure_room_id->0;
            let room = s.v2_rooms.rooms[room_id];
            let (t, result) = s.handle_sfu_input(
                InputView::Event {
                    connection_id,
                    instance_id,
                    event: EventView { request_id, event },
                },
            );
            &&& result is Ok
            &&& t.v2_rooms.rooms[room_id].mode == RoomMode::Failed
            &&& forall|c: u64|
                room.members.contains_key(c) && #[trigger] s.v2_connections.contains_key(
                    (room_id, c),
                ) ==> hears_once(
                    s.browser_outputs,
                    t.browser_outputs,
                    s.v2_connections[(room_id, c)],
                    seq![
                        ("control"@, Field::Text("room-failed"@)),
                        ("roomid"@, Field::Text(text::decimal(room_id as nat))),
                        ("reason"@, Field::Text(event->Failure_error.reason)),
                    ],
                )
            &&& t.browser_outputs.last() == BrowserOutputView::Sfu(
                OutputView::EventAck { connection_id, request_id },
            )
        }),
{
    let room_id = event->Failure_room_id->0;
    let room = s.v2_rooms.rooms[room_id];
    let input = InputView::Event {
        connection_id,
        instance_id,
        event: EventView { request_id, event },
    };
    sessions::law_reported_failure_fails_the_room(
        s.v2_rooms,
        connection_id,
        instance_id,
        request_id,
        event,
    );
    let rooms = s.v2_rooms.handle_sfu_input(input).0;
    super::lemma_actions_drained(State { v2_rooms: rooms, ..s });
    let base = State { v2_rooms: done(rooms), ..s };
    let all = rooms.actions;
    let t = s.handle_sfu_input(input).0;
    assert(t == base.performed(all));
    assert(all.last() == all[1]);
    assert forall|c: u64|
        room.members.contains_key(c) && #[trigger] s.v2_connections.contains_key(
            (room_id, c),
        ) implies hears_once(
        s.browser_outputs,
        t.browser_outputs,
        s.v2_connections[(room_id, c)],
        seq![
            ("control"@, Field::Text("room-failed"@)),
            ("roomid"@, Field::Text(text::decimal(room_id as nat))),
            ("reason"@, Field::Text(event->Failure_error.reason)),
        ],
    ) by {
        news::lemma_belongs(s, room_id, c);
        assert(news::speaks_to(all[0], room_id, c));
        assert(!news::speaks_to(all[1], room_id, c));
        news::lemma_spoken_actions(base, all, 0, s.v2_connections[(room_id, c)], room_id, c);
    }
}

/// Closing ends every connection once, forgets every room, client and worker, and leaves
/// what is still to be polled.
pub proof fn law_closing_ends_every_connection(s: State)
    requires
        s.sessions.dom().finite(),
    ensures
        ({
            let t = s.closed();
            let n = s.browser_outputs.len();
            &&& t.rooms.rooms == Map::<Text, crate::room::RoomView>::empty()
            &&& t.rooms.register_timeout == s.rooms.register_timeout
            &&& t.v2_rooms.rooms == Map::<u64, v2::model::Room>::empty()
            &&& t.v2_rooms.workers == Map::<Text, v2::model::Worker>::empty()
            &&& t.v2_rooms.pending_commands == Map::<u64, v2::model::Pending>::empty()
            &&& t.v2_rooms.actions.len() == 0
            &&& t.v2_rooms.lifecycle_ids == s.v2_rooms.lifecycle_ids
            &&& t.v2_rooms.next_sfu_request_id == s.v2_rooms.next_sfu_request_id
            &&& t.sessions == Map::<u64, Session>::empty()
            &&& t.connections == Map::<(Text, Text), u64>::empty()
            &&& t.v2_connections == Map::<(u64, u64), u64>::empty()
            &&& t.authority_responses == s.authority_responses
            &&& t.total_websocket_connections == s.total_websocket_connections
            &&& t.websocket_errors == s.websocket_errors
            &&& s.browser_outputs.is_prefix_of(t.browser_outputs)
            &&& t.browser_outputs.len() == n + s.sessions.dom().len()
            &&& forall|i: int|
                n <= i < t.browser_outputs.len() ==> (#[trigger] t.browser_outputs[i] matches
                    BrowserOutputView::Close { connection_id } && s.sessions.contains_key(
                    connection_id,
                ))
            &&& forall|id: u64| #[trigger]
                s.sessions.contains_key(id) ==> t.browser_outputs.contains(
                    BrowserOutputView::Close { connection_id: id },
                )
        }),
{
    let t = s.closed();
    let ids = crate::ord_map::in_order::<u64>(s.sessions.dom());
    let g = model::close_output();
    let n = s.browser_outputs.len();
    crate::ord_map::lemma_in_order::<u64>(s.sessions.dom());
    crate::ord_map::lemma_ascending_no_duplicates::<u64>(ids);
    ids.unique_seq_to_set();
    assert(ids.to_set() =~= s.sessions.dom()) by {
        assert forall|id: u64| ids.to_set().contains(id) <==> s.sessions.dom().contains(id) by {
            assert(ids.contains(id) <==> s.sessions.dom().contains(id));
        }
    }
    assert forall|i: int| n <= i < t.browser_outputs.len() implies (
    #[trigger] t.browser_outputs[i] matches BrowserOutputView::Close { connection_id }
        && s.sessions.contains_key(connection_id)) by {
        assert(t.browser_outputs[i] == g(ids[i - n]));
        assert(ids.contains(ids[i - n]));
        assert(s.sessions.dom().contains(ids[i - n]));
    }
    assert forall|id: u64| #[trigger]
        s.sessions.contains_key(id) implies t.browser_outputs.contains(
        BrowserOutputView::Close { connection_id: id },
    ) by {
        assert(s.sessions.dom().contains(id));
        assert(ids.contains(id));
        let k = choose|k: int| 0 <= k < ids.len() && ids[k] == id;
        assert(t.browser_outputs[n + k] == g(ids[k]));
    }
}

/// A text of a browser is handled as what it says as a frame, at its time.
pub proof fn law_texts_are_read_as_frames(
    s: State,
    connection_id: u64,
    text: Text,
    now: Instant,
)
    ensures
        s.handle_read(BrowserInputView::Text { connection_id, text, now }) == s.handle_frame(
            connection_id,
            WsClientMsgView::read(text),
            now,
        ),
{
}

/// What a browser of a direct room sends under the epoch of the room is what its connected
/// peer reads, whole and once, and nothing else happens.
pub proof fn law_v2_direct_message_reaches_the_peer(
    s: State,
    connection_id: u64,
    msg: WsClientMsgView,
    now: Instant,
    room_id: u64,
    client_id: u64,
    peer_id: u64,
)
    requires
        s.v2_rooms.inv(),
        s.v2_rooms.actions.len() == 0,
        s.sessions.contains_key(connection_id),
        s.sessions[connection_id] == (Session::RegisteredV2 { room_id, client_id }),
        s.v2_rooms.rooms.contains_key(room_id),
        s.v2_rooms.rooms[room_id].mode == RoomMode::P2p,
        s.v2_rooms.rooms[room_id].members.contains_key(client_id),
        s.v2_rooms.rooms[room_id].members.contains_key(peer_id),
        peer_id != client_id,
        s.v2_rooms.rooms[room_id].members[peer_id].registered,
        s.v2_connections.contains_key((room_id, peer_id)),
        msg.cmd == "send"@,
        msg.msg.len() > 0,
        msg.epoch == Some(text::decimal(s.v2_rooms.rooms[room_id].signal_epoch as nat)),
    ensures
        ({
            let (t, result) = s.handle_frame(connection_id, Ok(msg), now);
            &&& result is Ok
            &&& t == (State { browser_outputs: t.browser_outputs, ..s })
            &&& t.browser_outputs.len() == s.browser_outputs.len() + 1
            &&& s.browser_outputs.is_prefix_of(t.browser_outputs)
            &&& is_frame(
                t.browser_outputs.last(),
                s.v2_connections[(room_id, peer_id)],
                seq![("msg"@, Field::Text(msg.msg)), ("error"@, Field::Text(Seq::empty()))],
            )
        }),
{
    let epoch = s.v2_rooms.rooms[room_id].signal_epoch;
    law_v2_message_is_passed_on(s, connection_id, msg, now, room_id, client_id, epoch);
    v2::laws::members::law_direct_message_is_delivered_or_queued(
        s.v2_rooms,
        room_id,
        client_id,
        peer_id,
        msg.msg,
    );
}

/// What a browser of an SFU room sends under the epoch of the room is what the worker of
/// the room gets, whole and once, as the signal of that member; no browser hears of it.
pub proof fn law_v2_sfu_message_reaches_the_worker(
    s: State,
    connection_id: u64,
    msg: WsClientMsgView,
    now: Instant,
    room_id: u64,
    client_id: u64,
    instance_id: Text,
    worker_connection: u64,
)
    requires
        s.v2_rooms.actions.len() == 0,
        s.sessions.contains_key(connection_id),
        s.sessions[connection_id] == (Session::RegisteredV2 { room_id, client_id }),
        s.v2_rooms.rooms.contains_key(room_id),
        s.v2_rooms.rooms[room_id].mode == RoomMode::Sfu,
        s.v2_rooms.rooms[room_id].members.contains_key(client_id),
        s.v2_rooms.rooms[room_id].assigned_instance == Some(instance_id),
        is_connected(s.v2_rooms, instance_id, worker_connection),
        msg.cmd == "send"@,
        msg.msg.len() > 0,
        msg.epoch == Some(text::decimal(s.v2_rooms.rooms[room_id].signal_epoch as nat)),
    ensures
        ({
            let room = s.v2_rooms.rooms[room_id];
            let (t, result) = s.handle_frame(connection_id, Ok(msg), now);
            &&& result is Ok
            &&& t.v2_rooms.rooms == s.v2_rooms.rooms
            &&& t.browser_outputs == s.browser_outputs.push(
                BrowserOutputView::Sfu(
                    OutputView::Command {
                        connection_id: worker_connection,
                        command: sfu::CommandView {
                            request_id: s.v2_rooms.next_sfu_request_id,
                            command: sfu::CommandKindView::Signal(
                                sfu::SignalView {
                                    room_id,
                                    client_id,
                                    lifecycle_id: room.members[client_id].lifecycle_id,
                                    assignment_epoch: room.assignment_epoch,
                                    message_json: msg.msg,
                                    sdp_request_id: None,
                                },
                            ),
                        },
                    },
                ),
            )
        }),
{
    let epoch = s.v2_rooms.rooms[room_id].signal_epoch;
    law_v2_message_is_passed_on(s, connection_id, msg, now, room_id, client_id, epoch);
    v2::laws::members::law_sfu_message_goes_to_the_worker(
        s.v2_rooms,
        room_id,
        client_id,
        msg.msg,
        instance_id,
        worker_connection,
    );
}

} // verus!
