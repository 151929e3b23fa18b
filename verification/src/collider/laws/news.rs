//! What browsers read in the frames that they get.

use crate::collider::model;
use crate::collider::model::State;
use crate::collider::BrowserOutputView;
use crate::seqs;
use crate::seqs::Text;
use crate::text;
use crate::v2::laws::news::addressees;
use crate::v2::{ActionView, Promotion};
use crate::wire;
use crate::wire::{Field, Fields};
use vstd::prelude::*;

verus! {

/// Whether an output is a frame for a connection that reads as these fields.
pub open spec fn is_frame(output: BrowserOutputView, connection_id: u64, fields: Fields) -> bool {
    &&& output matches BrowserOutputView::Text { connection_id: to, text }
    &&& to == connection_id
    &&& wire::fields_of(text) == Some(fields)
}

/// Whether an output goes to a connection of a browser.
pub open spec fn is_for(output: BrowserOutputView, connection_id: u64) -> bool {
    match output {
        BrowserOutputView::Text { connection_id: to, .. } => to == connection_id,
        BrowserOutputView::Close { connection_id: to } => to == connection_id,
        BrowserOutputView::Sfu(_) => false,
    }
}

/// Whether an output goes to the connection of one of these clients of a room.
pub open spec fn goes_to(
    output: BrowserOutputView,
    connections: Map<(u64, u64), u64>,
    room_id: u64,
    clients: Set<u64>,
) -> bool {
    exists|c: u64| #[trigger]
        connections.contains_key((room_id, c)) && clients.contains(c) && is_for(
            output,
            connections[(room_id, c)],
        )
}

/// Among the outputs that came since, exactly one is for the connection, and it is a
/// frame that reads as these fields.
pub open spec fn hears_once(
    before: Seq<BrowserOutputView>,
    after: Seq<BrowserOutputView>,
    connection_id: u64,
    fields: Fields,
) -> bool {
    &&& before.is_prefix_of(after)
    &&& exists|i: int| #[trigger]
        hears_at(before, after, connection_id, i) && is_frame(after[i], connection_id, fields)
}

/// The only output since that is for the connection stands here.
pub open spec fn hears_at(
    before: Seq<BrowserOutputView>,
    after: Seq<BrowserOutputView>,
    connection_id: u64,
    i: int,
) -> bool {
    &&& before.len() <= i < after.len()
    &&& forall|j: int|
        before.len() <= j < after.len() && #[trigger] is_for(after[j], connection_id) ==> j == i
}

/// None of the outputs that came since is for the connection.
pub open spec fn hears_nothing(
    before: Seq<BrowserOutputView>,
    after: Seq<BrowserOutputView>,
    connection_id: u64,
) -> bool {
    &&& before.is_prefix_of(after)
    &&& forall|j: int|
        before.len() <= j < after.len() ==> !#[trigger] is_for(after[j], connection_id)
}

/// Whether a connection belongs to one client of a V2 room and to no other.
pub open spec fn belongs_to(s: State, connection_id: u64, room_id: u64, client_id: u64) -> bool {
    &&& s.v2_connections.contains_key((room_id, client_id))
    &&& s.v2_connections[(room_id, client_id)] == connection_id
    &&& forall|k: (u64, u64)| #[trigger]
        s.v2_connections.contains_key(k) && s.v2_connections[k] == connection_id ==> k == (
            room_id,
            client_id,
        )
}

/// In an orderly state a connection belongs to one client.
pub proof fn lemma_belongs(s: State, room_id: u64, client_id: u64)
    requires
        s.links_inv(),
        s.v2_connections.contains_key((room_id, client_id)),
    ensures
        belongs_to(s, s.v2_connections[(room_id, client_id)], room_id, client_id),
{
    assert forall|k: (u64, u64)| #[trigger]
        s.v2_connections.contains_key(k) && s.v2_connections[k] == s.v2_connections[(
            room_id,
            client_id,
        )] implies k == (room_id, client_id) by {
        let a = s.sessions[s.v2_connections[k]];
        let b = s.sessions[s.v2_connections[(room_id, client_id)]];
        assert(a == b);
        assert(k == (k.0, k.1));
    }
}

/// Whether an action concerns the connection of a client.
pub open spec fn speaks_to(action: ActionView, room_id: u64, client_id: u64) -> bool {
    match action {
        ActionView::Sfu(_) => false,
        ActionView::AdmissionCompleted { .. } => false,
        ActionView::RemovalCompleted { room_id: r, client_id: c, result, .. } => {
            result is Ok && r == room_id && c == client_id
        },
        ActionView::Upgraded { room_id: r, existing_clients, .. } => {
            r == room_id && existing_clients.contains(client_id)
        },
        ActionView::Downgraded { room_id: r, clients, .. } => {
            r == room_id && clients.contains(client_id)
        },
        ActionView::Deliver(delivery) => {
            delivery.room_id == room_id && delivery.client_id == client_id
        },
        ActionView::Promoted(promotion) => {
            promotion.room_id == room_id && promotion.client_id == client_id
        },
        ActionView::RoomFailed { room_id: r, clients, .. } => {
            r == room_id && clients.contains(client_id)
        },
    }
}

/// The fields of the news of an upgrade.
pub open spec fn upgrade_fields(room_id: u64, signal_epoch: u64) -> Fields {
    seq![
        ("control"@, Field::Text("sfu-upgrade"@)),
        ("roomid"@, Field::Text(text::decimal(room_id as nat))),
        ("epoch"@, Field::Text(text::decimal(signal_epoch as nat))),
    ]
}

/// The fields of the news of a downgrade or a promotion.
pub open spec fn offer_fields(
    control: Text,
    room_id: u64,
    signal_epoch: u64,
    is_initiator: bool,
) -> Fields {
    seq![
        ("control"@, Field::Text(control)),
        ("roomid"@, Field::Text(text::decimal(room_id as nat))),
        ("epoch"@, Field::Text(text::decimal(signal_epoch as nat))),
        ("is_initiator"@, Field::Flag(is_initiator)),
    ]
}

/// The fields of the news of a failure.
pub open spec fn failure_fields(room_id: u64, reason: Text) -> Fields {
    seq![
        ("control"@, Field::Text("room-failed"@)),
        ("roomid"@, Field::Text(text::decimal(room_id as nat))),
        ("reason"@, Field::Text(reason)),
    ]
}

/// The fields of a relayed message.
pub open spec fn relay_fields(message: Text) -> Fields {
    seq![("msg"@, Field::Text(message)), ("error"@, Field::Text(Seq::empty()))]
}

/// What an action that speaks to a client by a frame says to it.
pub open spec fn said_by(action: ActionView, client_id: u64) -> Option<Fields> {
    match action {
        ActionView::Upgraded { room_id, signal_epoch, .. } => Some(
            upgrade_fields(room_id, signal_epoch),
        ),
        ActionView::Downgraded { room_id, signal_epoch, initiator_client_id, .. } => Some(
            offer_fields(
                "sfu-downgrade"@,
                room_id,
                signal_epoch,
                client_id == initiator_client_id,
            ),
        ),
        ActionView::Deliver(delivery) => Some(relay_fields(delivery.message)),
        ActionView::Promoted(promotion) => Some(
            offer_fields("p2p-promote"@, promotion.room_id, promotion.signal_epoch, true),
        ),
        ActionView::RoomFailed { room_id, reason, .. } => Some(failure_fields(room_id, reason)),
        _ => None,
    }
}

/// A notice to clients of a room.
#[verifier::rlimit(40)]
proof fn lemma_notice(
    s: State,
    room_id: u64,
    clients: Seq<u64>,
    texts: spec_fn(u64) -> Text,
    connection_id: u64,
    r: u64,
    c: u64,
)
    requires
        belongs_to(s, connection_id, r, c),
        clients.no_duplicates(),
    ensures
        ({
            let t = s.with_notice(room_id, clients, texts);
            &&& t.v2_connections == s.v2_connections
            &&& s.browser_outputs.is_prefix_of(t.browser_outputs)
            &&& !(r == room_id && clients.contains(c)) ==> hears_nothing(
                s.browser_outputs,
                t.browser_outputs,
                connection_id,
            )
            &&& r == room_id && clients.contains(c) ==> exists|i: int| #[trigger]
                hears_at(s.browser_outputs, t.browser_outputs, connection_id, i)
                    && t.browser_outputs[i] == (BrowserOutputView::Text {
                    connection_id,
                    text: texts(c),
                })
        }),
{
    let t = s.with_notice(room_id, clients, texts);
    let p = model::is_reachable(s.v2_connections, room_id);
    let g = model::addressed(s.v2_connections, room_id, texts);
    let kept = clients.filter(p);
    let n = s.browser_outputs.len();
    seqs::lemma_filter_contains(clients, p);
    seqs::lemma_filter_no_duplicates(clients, p);
    assert forall|j: int| n <= j < t.browser_outputs.len() implies t.browser_outputs[j] == g(
        #[trigger] kept[j - n],
    ) by {}
    assert forall|j: int|
        n <= j < t.browser_outputs.len() && #[trigger] is_for(
            t.browser_outputs[j],
            connection_id,
        ) implies kept[j - n] == c && r == room_id by {
        assert(t.browser_outputs[j] == g(kept[j - n]));
        assert(kept.contains(kept[j - n]));
        assert(s.v2_connections.contains_key((room_id, kept[j - n])));
    }
    if r == room_id && clients.contains(c) {
        assert(p(c));
        assert(kept.contains(c));
        let k = choose|k: int| 0 <= k < kept.len() && kept[k] == c;
        assert(t.browser_outputs[n + k] == g(kept[k]));
        assert(hears_at(s.browser_outputs, t.browser_outputs, connection_id, n + k));
    } else {
        assert forall|j: int| n <= j < t.browser_outputs.len() implies !#[trigger] is_for(
            t.browser_outputs[j],
            connection_id,
        ) by {
            if is_for(t.browser_outputs[j], connection_id) {
                assert(t.browser_outputs[j] == g(kept[j - n]));
                assert(kept.contains(kept[j - n]));
            }
        }
    }
}

/// An action that does not concern a client leaves its connection alone.
proof fn lemma_silent_action(s: State, action: ActionView, connection_id: u64, r: u64, c: u64)
    requires
        belongs_to(s, connection_id, r, c),
        !speaks_to(action, r, c),
        addressees(action).no_duplicates(),
    ensures
        belongs_to(s.after_action(action), connection_id, r, c),
        hears_nothing(
            s.browser_outputs,
            s.after_action(action).browser_outputs,
            connection_id,
        ),
{
    match action {
        ActionView::Upgraded { room_id, signal_epoch, existing_clients } => {
            lemma_notice(
                s,
                room_id,
                existing_clients,
                model::upgrade_text(room_id, signal_epoch),
                connection_id,
                r,
                c,
            );
        },
        ActionView::Downgraded { room_id, signal_epoch, initiator_client_id, clients } => {
            lemma_notice(
                s,
                room_id,
                clients,
                model::downgrade_text(room_id, signal_epoch, initiator_client_id),
                connection_id,
                r,
                c,
            );
        },
        ActionView::RoomFailed { room_id, clients, reason } => {
            lemma_notice(
                s,
                room_id,
                clients,
                model::failure_text(room_id, reason),
                connection_id,
                r,
                c,
            );
        },
        ActionView::Deliver(delivery) => {
            assert(s.v2_connections.contains_key((delivery.room_id, delivery.client_id))
                ==> s.v2_connections[(delivery.room_id, delivery.client_id)] != connection_id);
        },
        ActionView::Promoted(p) => {
            assert(s.v2_connections.contains_key((p.room_id, p.client_id)) ==> s.v2_connections[(
                p.room_id,
                p.client_id,
            )] != connection_id);
        },
        ActionView::RemovalCompleted { room_id, client_id, result, .. } => {
            assert(s.v2_connections.contains_key((room_id, client_id)) && !(room_id == r
                && client_id == c) ==> s.v2_connections[(room_id, client_id)] != connection_id);
        },
        _ => {},
    }
}

/// An action that speaks to a client by a frame says to it what it is about.
#[verifier::rlimit(40)]
proof fn lemma_spoken_action(s: State, action: ActionView, connection_id: u64, r: u64, c: u64)
    requires
        belongs_to(s, connection_id, r, c),
        speaks_to(action, r, c),
        said_by(action, c) is Some,
        addressees(action).no_duplicates(),
    ensures
        belongs_to(s.after_action(action), connection_id, r, c),
        hears_once(
            s.browser_outputs,
            s.after_action(action).browser_outputs,
            connection_id,
            said_by(action, c)->0,
        ),
{
    let before = s.browser_outputs;
    let after = s.after_action(action).browser_outputs;
    match action {
        ActionView::Upgraded { room_id, signal_epoch, existing_clients } => {
            lemma_notice(
                s,
                room_id,
                existing_clients,
                model::upgrade_text(room_id, signal_epoch),
                connection_id,
                r,
                c,
            );
            wire::law_upgrade_frame_carries_its_fields(
                "sfu-upgrade"@,
                text::decimal(room_id as nat),
                text::decimal(signal_epoch as nat),
            );
        },
        ActionView::Downgraded { room_id, signal_epoch, initiator_client_id, clients } => {
            lemma_notice(
                s,
                room_id,
                clients,
                model::downgrade_text(room_id, signal_epoch, initiator_client_id),
                connection_id,
                r,
                c,
            );
            wire::law_offer_frame_carries_its_fields(
                "sfu-downgrade"@,
                text::decimal(room_id as nat),
                text::decimal(signal_epoch as nat),
                c == initiator_client_id,
            );
        },
        ActionView::RoomFailed { room_id, clients, reason } => {
            lemma_notice(
                s,
                room_id,
                clients,
                model::failure_text(room_id, reason),
                connection_id,
                r,
                c,
            );
            wire::law_failure_frame_carries_its_fields(
                "room-failed"@,
                text::decimal(room_id as nat),
                reason,
            );
        },
        ActionView::Deliver(delivery) => {
            wire::law_relay_frame_carries_the_payload(delivery.message, delivery.message);
            assert(hears_at(before, after, connection_id, before.len() as int));
        },
        ActionView::Promoted(p) => {
            wire::law_offer_frame_carries_its_fields(
                "p2p-promote"@,
                text::decimal(p.room_id as nat),
                text::decimal(p.signal_epoch as nat),
                true,
            );
            assert(hears_at(before, after, connection_id, before.len() as int));
        },
        _ => {},
    }
    let i = choose|i: int| #[trigger] hears_at(before, after, connection_id, i);
    assert(hears_at(before, after, connection_id, i));
}

/// What was heard once, and what came after it in silence.
pub proof fn lemma_heard_before(
    a: Seq<BrowserOutputView>,
    b: Seq<BrowserOutputView>,
    c: Seq<BrowserOutputView>,
    connection_id: u64,
    fields: Fields,
)
    requires
        hears_once(a, b, connection_id, fields),
        hears_nothing(b, c, connection_id),
    ensures
        hears_once(a, c, connection_id, fields),
{
    let i = choose|i: int| #[trigger]
        hears_at(a, b, connection_id, i) && is_frame(b[i], connection_id, fields);
    assert(c[i] == b[i]);
    assert forall|j: int|
        a.len() <= j < c.len() && #[trigger] is_for(c[j], connection_id) implies j == i by {
        if j < b.len() {
            assert(b[j] == c[j]);
            assert(is_for(b[j], connection_id));
        }
    }
    assert(hears_at(a, c, connection_id, i));
    assert forall|k: int| 0 <= k < a.len() implies a[k] == c[k] by {
        assert(a[k] == b[k]);
    }
}

/// Silence, and then what was heard once.
pub proof fn lemma_heard_after(
    a: Seq<BrowserOutputView>,
    b: Seq<BrowserOutputView>,
    c: Seq<BrowserOutputView>,
    connection_id: u64,
    fields: Fields,
)
    requires
        hears_nothing(a, b, connection_id),
        hears_once(b, c, connection_id, fields),
    ensures
        hears_once(a, c, connection_id, fields),
{
    let i = choose|i: int| #[trigger]
        hears_at(b, c, connection_id, i) && is_frame(c[i], connection_id, fields);
    assert forall|j: int|
        a.len() <= j < c.len() && #[trigger] is_for(c[j], connection_id) implies j == i by {
        if j < b.len() {
            assert(b[j] == c[j]);
            assert(is_for(b[j], connection_id));
        }
    }
    assert(hears_at(a, c, connection_id, i));
    assert forall|k: int| 0 <= k < a.len() implies a[k] == c[k] by {
        assert(a[k] == b[k]);
    }
}

proof fn lemma_silence(
    a: Seq<BrowserOutputView>,
    b: Seq<BrowserOutputView>,
    c: Seq<BrowserOutputView>,
    connection_id: u64,
)
    requires
        hears_nothing(a, b, connection_id),
        hears_nothing(b, c, connection_id),
    ensures
        hears_nothing(a, c, connection_id),
{
    assert forall|j: int| a.len() <= j < c.len() implies !#[trigger] is_for(
        c[j],
        connection_id,
    ) by {
        if j < b.len() {
            assert(b[j] == c[j]);
            assert(!is_for(b[j], connection_id));
        }
    }
    assert forall|k: int| 0 <= k < a.len() implies a[k] == c[k] by {
        assert(a[k] == b[k]);
    }
}

/// Actions that do not concern a client leave its connection alone.
pub proof fn lemma_silent_actions(
    s: State,
    actions: Seq<ActionView>,
    connection_id: u64,
    r: u64,
    c: u64,
)
    requires
        belongs_to(s, connection_id, r, c),
        forall|i: int|
            0 <= i < actions.len() ==> !speaks_to(#[trigger] actions[i], r, c) && addressees(
                actions[i],
            ).no_duplicates(),
    ensures
        belongs_to(s.performed(actions), connection_id, r, c),
        hears_nothing(s.browser_outputs, s.performed(actions).browser_outputs, connection_id),
    decreases actions.len(),
{
    if actions.len() > 0 {
        let front = actions.drop_last();
        assert forall|i: int| 0 <= i < front.len() implies !speaks_to(#[trigger] front[i], r, c)
            && addressees(front[i]).no_duplicates() by {
            assert(front[i] == actions[i]);
        }
        lemma_silent_actions(s, front, connection_id, r, c);
        let t = s.performed(front);
        assert(actions.last() == actions[actions.len() - 1]);
        lemma_silent_action(t, actions.last(), connection_id, r, c);
        lemma_silence(
            s.browser_outputs,
            t.browser_outputs,
            s.performed(actions).browser_outputs,
            connection_id,
        );
    }
}

/// Of actions of which one speaks to a client, the client hears that one, once.
pub proof fn lemma_spoken_actions(
    s: State,
    actions: Seq<ActionView>,
    m: int,
    connection_id: u64,
    r: u64,
    c: u64,
)
    requires
        belongs_to(s, connection_id, r, c),
        0 <= m < actions.len(),
        speaks_to(actions[m], r, c),
        said_by(actions[m], c) is Some,
        forall|i: int|
            0 <= i < actions.len() ==> addressees(#[trigger] actions[i]).no_duplicates() && (i
                != m ==> !speaks_to(actions[i], r, c)),
    ensures
        belongs_to(s.performed(actions), connection_id, r, c),
        hears_once(
            s.browser_outputs,
            s.performed(actions).browser_outputs,
            connection_id,
            said_by(actions[m], c)->0,
        ),
    decreases actions.len(),
{
    let front = actions.drop_last();
    let last = actions.last();
    let t = s.performed(front);
    let fields = said_by(actions[m], c)->0;
    assert(last == actions[actions.len() - 1]);
    if m == actions.len() - 1 {
        assert forall|i: int| 0 <= i < front.len() implies !speaks_to(#[trigger] front[i], r, c)
            && addressees(front[i]).no_duplicates() by {
            assert(front[i] == actions[i]);
        }
        lemma_silent_actions(s, front, connection_id, r, c);
        lemma_spoken_action(t, last, connection_id, r, c);
        lemma_heard_after(
            s.browser_outputs,
            t.browser_outputs,
            s.performed(actions).browser_outputs,
            connection_id,
            fields,
        );
    } else {
        assert forall|i: int| 0 <= i < front.len() implies addressees(
            #[trigger] front[i],
        ).no_duplicates() && (i != m ==> !speaks_to(front[i], r, c)) by {
            assert(front[i] == actions[i]);
        }
        lemma_spoken_actions(s, front, m, connection_id, r, c);
        lemma_silent_action(t, last, connection_id, r, c);
        lemma_heard_before(
            s.browser_outputs,
            t.browser_outputs,
            s.performed(actions).browser_outputs,
            connection_id,
            fields,
        );
    }
}

/// Promotions of others leave a connection alone.
pub proof fn lemma_silent_promotions(
    s: State,
    promotions: Seq<Promotion>,
    connection_id: u64,
    r: u64,
    c: u64,
)
    requires
        belongs_to(s, connection_id, r, c),
        forall|i: int|
            0 <= i < promotions.len() ==> !((#[trigger] promotions[i]).room_id == r
                && promotions[i].client_id == c),
    ensures
        hears_nothing(
            s.browser_outputs,
            s.with_promotions(promotions).browser_outputs,
            connection_id,
        ),
        s.with_promotions(promotions).v2_connections == s.v2_connections,
    decreases promotions.len(),
{
    if promotions.len() > 0 {
        let front = promotions.drop_last();
        assert forall|i: int| 0 <= i < front.len() implies !((#[trigger] front[i]).room_id == r
            && front[i].client_id == c) by {
            assert(front[i] == promotions[i]);
        }
        lemma_silent_promotions(s, front, connection_id, r, c);
        let t = s.with_promotions(front);
        let p = promotions.last();
        assert(p == promotions[promotions.len() - 1]);
        assert(t.v2_connections.contains_key((p.room_id, p.client_id)) ==> t.v2_connections[(
            p.room_id,
            p.client_id,
        )] != connection_id);
        lemma_silence(
            s.browser_outputs,
            t.browser_outputs,
            s.with_promotions(promotions).browser_outputs,
            connection_id,
        );
    }
}

/// Of promotions of which one is for a client, the client hears that one, once.
pub proof fn lemma_spoken_promotions(
    s: State,
    promotions: Seq<Promotion>,
    m: int,
    connection_id: u64,
    r: u64,
    c: u64,
)
    requires
        belongs_to(s, connection_id, r, c),
        0 <= m < promotions.len(),
        promotions[m].room_id == r,
        promotions[m].client_id == c,
        forall|i: int|
            0 <= i < promotions.len() && i != m ==> (#[trigger] promotions[i]).room_id != r,
    ensures
        hears_once(
            s.browser_outputs,
            s.with_promotions(promotions).browser_outputs,
            connection_id,
            offer_fields("p2p-promote"@, r, promotions[m].signal_epoch, true),
        ),
        s.with_promotions(promotions).v2_connections == s.v2_connections,
    decreases promotions.len(),
{
    let front = promotions.drop_last();
    let p = promotions.last();
    let t = s.with_promotions(front);
    assert(p == promotions[promotions.len() - 1]);
    let fields = offer_fields("p2p-promote"@, r, promotions[m].signal_epoch, true);
    if m == promotions.len() - 1 {
        assert forall|i: int| 0 <= i < front.len() implies !((#[trigger] front[i]).room_id == r
            && front[i].client_id == c) by {
            assert(front[i] == promotions[i]);
        }
        lemma_silent_promotions(s, front, connection_id, r, c);
        lemma_spoken_action(t, ActionView::Promoted(p), connection_id, r, c);
        lemma_heard_after(
            s.browser_outputs,
            t.browser_outputs,
            s.with_promotions(promotions).browser_outputs,
            connection_id,
            fields,
        );
    } else {
        assert forall|i: int| 0 <= i < front.len() && i != m implies (
        #[trigger] front[i]).room_id != r by {
            assert(front[i] == promotions[i]);
        }
        lemma_spoken_promotions(s, front, m, connection_id, r, c);
        lemma_silent_action(t, ActionView::Promoted(p), connection_id, r, c);
        lemma_heard_before(
            s.browser_outputs,
            t.browser_outputs,
            s.with_promotions(promotions).browser_outputs,
            connection_id,
            fields,
        );
    }
}

} // verus!
