//! What contracts see of the values that go in and out: each of their parts, whole.

use crate::collider;
use crate::messages;
use crate::seqs;
use crate::sfu;
use crate::v2;
use vstd::prelude::*;

verus! {

/// Of a row each element is seen, in its place; of an option and of a result what is in it.
pub proof fn law_rows_are_seen_whole(
    row: Seq<String>,
    option: Option<String>,
    result: Result<String, String>,
)
    ensures
        seqs::views(row).len() == row.len(),
        forall|i: int| 0 <= i < row.len() ==> #[trigger] seqs::views(row)[i] == row[i]@,
        option is Some <==> seqs::opt_view(option) is Some,
        option matches Some(text) ==> seqs::opt_view(option) == Some(text@),
        result matches Ok(text) ==> seqs::result_view(result) == Ok::<seqs::Text, seqs::Text>(text@),
        result matches Err(text) ==> seqs::result_view(result) == Err::<seqs::Text, seqs::Text>(text@),
{
}

/// All parts of the state of a room are seen.
pub proof fn law_sync_room_is_seen_whole(x: sfu::SyncRoom)
    ensures
        x@ == (sfu::SyncRoomView {
            room_id: x.room_id,
            assignment_epoch: x.assignment_epoch,
            members: x.members@,
        }),
{
}

/// All parts of a signal are seen.
pub proof fn law_signal_is_seen_whole(x: sfu::Signal)
    ensures
        x@ == (sfu::SignalView {
            room_id: x.room_id,
            client_id: x.client_id,
            lifecycle_id: x.lifecycle_id,
            assignment_epoch: x.assignment_epoch,
            message_json: x.message_json@,
            sdp_request_id: x.sdp_request_id,
        }),
{
}

/// All parts of what a worker is asked are seen.
pub proof fn law_command_kind_is_seen_whole(x: sfu::CommandKind)
    ensures
        match x {
            sfu::CommandKind::SyncRoom(c) => x@ == (sfu::CommandKindView::SyncRoom(c@)),
            sfu::CommandKind::Join(c) => x@ == (sfu::CommandKindView::Join(c)),
            sfu::CommandKind::Leave(c) => x@ == (sfu::CommandKindView::Leave(c)),
            sfu::CommandKind::Signal(c) => x@ == (sfu::CommandKindView::Signal(c@)),
        },
{
}

/// All parts of a command are seen.
pub proof fn law_command_is_seen_whole(x: sfu::Command)
    ensures
        x@ == (sfu::CommandView { request_id: x.request_id, command: x.command@ }),
{
}

/// All parts of a reason are seen.
pub proof fn law_error_is_seen_whole(x: sfu::Error)
    ensures
        x@ == (sfu::ErrorView { reason: x.reason@, retryable: x.retryable }),
{
}

/// All parts of the result of a command are seen.
pub proof fn law_command_result_is_seen_whole(x: sfu::CommandResult)
    ensures
        x@ == (sfu::CommandResultView {
            request_id: x.request_id,
            result: match x.result {
                Ok(ok) => Ok(ok),
                Err(error) => Err(error@),
            },
        }),
{
}

/// All parts of what a worker reports are seen.
pub proof fn law_event_kind_is_seen_whole(x: sfu::EventKind)
    ensures
        match x {
            sfu::EventKind::Signal(signal) => x@ == (sfu::EventKindView::Signal(signal@)),
            sfu::EventKind::Health(health) => x@ == (sfu::EventKindView::Health(health)),
            sfu::EventKind::Failure { error, room_id, client_id, lifecycle_id, sdp_request_id } => x@ == (
                sfu::EventKindView::Failure {
                    error: error@,
                    room_id,
                    client_id,
                    lifecycle_id,
                    sdp_request_id,
                }),
        },
{
}

/// All parts of an event are seen.
pub proof fn law_event_is_seen_whole(x: sfu::Event)
    ensures
        x@ == (sfu::EventView { request_id: x.request_id, event: x.event@ }),
{
}

/// All parts of what comes from a worker are seen.
pub proof fn law_input_is_seen_whole(x: sfu::Input)
    ensures
        match x {
            sfu::Input::Register { connection_id, instance_id, request_id, capacity } => x@ == (
                sfu::InputView::Register {
                    connection_id,
                    instance_id: instance_id@,
                    request_id,
                    capacity,
                }),
            sfu::Input::CommandResult { connection_id, instance_id, result, now } => x@ == (
                sfu::InputView::CommandResult {
                    connection_id,
                    instance_id: instance_id@,
                    result: result@,
                    now,
                }),
            sfu::Input::Event { connection_id, instance_id, event } => x@ == (
                sfu::InputView::Event {
                    connection_id,
                    instance_id: instance_id@,
                    event: event@,
                }),
            sfu::Input::Disconnected { connection_id, instance_id, now } => x@ == (
                sfu::InputView::Disconnected {
                    connection_id,
                    instance_id: instance_id@,
                    now,
                }),
        },
{
}

/// All parts of what goes to a worker are seen.
pub proof fn law_output_is_seen_whole(x: sfu::Output)
    ensures
        match x {
            sfu::Output::Registered { connection_id, request_id, health_interval_ms, resumed } => x@ == (
                sfu::OutputView::Registered {
                    connection_id,
                    request_id,
                    health_interval_ms,
                    resumed,
                }),
            sfu::Output::RegistrationError { connection_id, request_id, error } => x@ == (
                sfu::OutputView::RegistrationError {
                    connection_id,
                    request_id,
                    error: error@,
                }),
            sfu::Output::Command { connection_id, command } => x@ == (sfu::OutputView::Command { connection_id, command: command@ }),
            sfu::Output::EventAck { connection_id, request_id } => x@ == (sfu::OutputView::EventAck { connection_id, request_id: request_id }),
            sfu::Output::Close { connection_id } => x@ == (sfu::OutputView::Close { connection_id: connection_id }),
        },
{
}

/// All parts of an admission are seen.
pub proof fn law_admission_is_seen_whole(x: v2::Admission)
    ensures
        x@ == (v2::AdmissionView {
            mode: x.mode,
            signal_epoch: x.signal_epoch,
            admission_token: x.admission_token@,
            is_initiator: x.is_initiator,
        }),
{
}

/// All parts of what becomes of an admission are seen.
pub proof fn law_admission_result_is_seen_whole(x: v2::AdmissionResult)
    ensures
        match x {
            v2::AdmissionResult::Complete(admission) => x@ == (v2::AdmissionResultView::Complete(admission@)),
            v2::AdmissionResult::Pending => x@ == (v2::AdmissionResultView::Pending),
        },
{
}

/// All parts of a registration are seen.
pub proof fn law_registration_is_seen_whole(x: v2::Registration)
    ensures
        x@ == (v2::RegistrationView {
            mode: x.mode,
            signal_epoch: x.signal_epoch,
            is_initiator: x.is_initiator,
            queued_messages: seqs::views(x.queued_messages@),
        }),
{
}

/// All parts of a delivery are seen.
pub proof fn law_delivery_is_seen_whole(x: v2::Delivery)
    ensures
        x@ == (v2::DeliveryView { room_id: x.room_id, client_id: x.client_id, message: x.message@ }),
{
}

/// All parts of what becomes of a message are seen.
pub proof fn law_send_result_is_seen_whole(x: v2::SendResult)
    ensures
        match x {
            v2::SendResult::P2p(delivery) => x@ == (v2::SendResultView::P2p(seqs::opt_view(delivery))),
            v2::SendResult::Sfu => x@ == (v2::SendResultView::Sfu),
            v2::SendResult::Dropped => x@ == (v2::SendResultView::Dropped),
        },
{
}

/// All parts of an action are seen.
pub proof fn law_action_is_seen_whole(x: v2::Action)
    ensures
        match x {
            v2::Action::Sfu(output) => x@ == (v2::ActionView::Sfu(output@)),
            v2::Action::AdmissionCompleted { authority_request_id, result } => x@ == (
                v2::ActionView::AdmissionCompleted {
                    authority_request_id,
                    result: seqs::result_view(result),
                }),
            v2::Action::RemovalCompleted { authority_request_id, room_id, client_id, result } => x@ == (
                v2::ActionView::RemovalCompleted {
                    authority_request_id,
                    room_id,
                    client_id,
                    result: seqs::result_view(result),
                }),
            v2::Action::Upgraded { room_id, signal_epoch, existing_clients } => x@ == (
                v2::ActionView::Upgraded {
                    room_id,
                    signal_epoch,
                    existing_clients: existing_clients@,
                }),
            v2::Action::Downgraded { room_id, signal_epoch, initiator_client_id, clients } => x@ == (
                v2::ActionView::Downgraded {
                    room_id,
                    signal_epoch,
                    initiator_client_id,
                    clients: clients@,
                }),
            v2::Action::Deliver(delivery) => x@ == (v2::ActionView::Deliver(delivery@)),
            v2::Action::Promoted(promotion) => x@ == (v2::ActionView::Promoted(promotion)),
            v2::Action::RoomFailed { room_id, clients, reason } => x@ == (v2::ActionView::RoomFailed { room_id, clients: clients@, reason: reason@ }),
        },
{
}

/// All parts of what comes from a browser are seen.
pub proof fn law_browser_input_is_seen_whole(x: collider::BrowserInput)
    ensures
        match x {
            collider::BrowserInput::Connected { connection_id } => x@ == (
                collider::BrowserInputView::Connected {
                connection_id,
            }),
            collider::BrowserInput::Text { connection_id, text, now } => x@ == (
                collider::BrowserInputView::Text {
                connection_id,
                text: text@,
                now,
            }),
            collider::BrowserInput::Disconnected { connection_id, now } => x@ == (
                collider::BrowserInputView::Disconnected {
                connection_id,
                now,
            }),
        },
{
}

/// All parts of what goes out are seen.
pub proof fn law_browser_output_is_seen_whole(x: collider::BrowserOutput)
    ensures
        match x {
            collider::BrowserOutput::Text { connection_id, text } => x@ == (
                collider::BrowserOutputView::Text {
                connection_id,
                text: text@,
            }),
            collider::BrowserOutput::Close { connection_id } => x@ == (
                collider::BrowserOutputView::Close {
                connection_id,
            }),
            collider::BrowserOutput::Sfu(output) => x@ == (collider::BrowserOutputView::Sfu(output@)),
        },
{
}

/// All parts of what a room server asks for are seen.
pub proof fn law_authority_operation_is_seen_whole(x: collider::AuthorityOperation)
    ensures
        match x {
            collider::AuthorityOperation::Admit { roomid, clientid, is_loopback, now } => x@ == (
                collider::AuthorityOperationView::Admit {
                    roomid: roomid@,
                    clientid: clientid@,
                    is_loopback,
                    now,
                }),
            collider::AuthorityOperation::Remove { roomid, clientid } => x@ == (
                collider::AuthorityOperationView::Remove {
                roomid: roomid@,
                clientid: clientid@,
            }),
            collider::AuthorityOperation::Occupancy { roomid } => x@ == (
                collider::AuthorityOperationView::Occupancy {
                roomid: roomid@,
            }),
            collider::AuthorityOperation::Inject { roomid, clientid, msg, now } => x@ == (
                collider::AuthorityOperationView::Inject {
                    roomid: roomid@,
                    clientid: clientid@,
                    msg: msg@,
                    now,
                }),
            collider::AuthorityOperation::AdmitV2 { room_id, client_id, admission_token, now } => x@ == (
                collider::AuthorityOperationView::AdmitV2 {
                    room_id,
                    client_id,
                    admission_token: admission_token@,
                    now,
                }),
            collider::AuthorityOperation::RemoveV2 { room_id, client_id, admission_token } => x@ == (
                collider::AuthorityOperationView::RemoveV2 {
                    room_id,
                    client_id,
                    admission_token: admission_token@,
                }),
            collider::AuthorityOperation::OccupancyV2 { room_id } => x@ == (
                collider::AuthorityOperationView::OccupancyV2 {
                room_id,
            }),
            collider::AuthorityOperation::Status => x@ == (collider::AuthorityOperationView::Status),
        },
{
}

/// All parts of a command of a room server are seen.
pub proof fn law_authority_command_is_seen_whole(x: collider::AuthorityCommand)
    ensures
        x@ == (collider::AuthorityCommandView { request_id: x.request_id, operation: x.operation@ }),
{
}

/// All parts of an answer are seen.
pub proof fn law_authority_result_is_seen_whole(x: collider::AuthorityResult)
    ensures
        match x {
            collider::AuthorityResult::Admitted { is_initiator, messages } => x@ == (
                collider::AuthorityResultView::Admitted {
                is_initiator,
                messages: seqs::views(messages@),
            }),
            collider::AuthorityResult::Removed => x@ == (collider::AuthorityResultView::Removed),
            collider::AuthorityResult::Occupancy { count } => x@ == (
                collider::AuthorityResultView::Occupancy {
                count: count as nat,
            }),
            collider::AuthorityResult::Injected => x@ == (collider::AuthorityResultView::Injected),
            collider::AuthorityResult::AdmittedV2 { mode, signal_epoch, admission_token, is_initiator } => x@ == (
                collider::AuthorityResultView::AdmittedV2 {
                    mode,
                    signal_epoch,
                    admission_token: admission_token@,
                    is_initiator,
                }),
            collider::AuthorityResult::RemovedV2 => x@ == (collider::AuthorityResultView::RemovedV2),
            collider::AuthorityResult::OccupancyV2 { count, mode } => x@ == (
                collider::AuthorityResultView::OccupancyV2 {
                count: count as nat,
                mode,
            }),
            collider::AuthorityResult::Status(status) => x@ == (collider::AuthorityResultView::Status(status)),
            collider::AuthorityResult::Error { result } => x@ == (collider::AuthorityResultView::Error { result: result@ }),
        },
{
}

/// All parts of an answer and whom it is for are seen.
pub proof fn law_authority_response_is_seen_whole(x: collider::AuthorityResponse)
    ensures
        x@ == (collider::AuthorityResponseView { request_id: x.request_id, result: x.result@ }),
{
}

/// All parts of a message are seen.
pub proof fn law_message_is_seen_whole(x: messages::Message)
    ensures
        x@ == (messages::MessageView { roomid: x.roomid@, clientid: x.clientid@, msg: x.msg@ }),
{
}

/// All parts of a frame are seen.
pub proof fn law_ws_client_msg_is_seen_whole(x: messages::WsClientMsg)
    ensures
        x@ == (messages::WsClientMsgView {
            cmd: x.cmd@,
            roomid: x.roomid@,
            clientid: x.clientid@,
            msg: x.msg@,
            ver: x.ver,
            token: x.token@,
            epoch: seqs::opt_view(x.epoch),
        }),
{
}

/// Of the answer to a V1 join it is seen whether the client offers, each message that it is
/// handed, in its place, and why it is refused.
pub proof fn law_join_is_seen_whole(x: Result<(bool, Vec<String>), String>)
    ensures
        match x {
            Ok((is_initiator, messages)) => {
                &&& crate::room::join_result(x) is Ok
                &&& crate::room::join_result(x)->Ok_0.0 == is_initiator
                &&& crate::room::join_result(x)->Ok_0.1.len() == messages@.len()
                &&& forall|i: int|
                    0 <= i < messages@.len() ==> #[trigger] crate::room::join_result(x)->Ok_0.1[i]
                        == messages@[i]@
            },
            Err(reason) => crate::room::join_result(x) == Err::<
                (bool, Seq<seqs::Text>),
                seqs::Text,
            >(reason@),
        },
{
}

/// What is taken from the front of a row is its first element, and the rest stays; nothing
/// is taken from an empty row only.
pub proof fn law_front_is_taken(
    r: Option<messages::Message>,
    before: Seq<messages::MessageView>,
    after: Seq<messages::MessageView>,
)
    requires
        crate::client::popped(r, before, after),
    ensures
        r is None <==> before.len() == 0,
        r is None ==> after == before,
        r matches Some(message) ==> message@ == before[0] && after.len() == before.len() - 1
            && forall|i: int| 0 <= i < after.len() ==> #[trigger] after[i] == before[i + 1],
{
}

/// A count is the number itself as far as can be counted to.
pub proof fn law_counts_are_exact(n: nat)
    ensures
        n <= usize::MAX ==> seqs::countable(n) == n,
        n > usize::MAX ==> seqs::countable(n) == usize::MAX,
{
}

} // verus!
