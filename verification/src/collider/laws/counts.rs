//! What the status of the authority counts.

use crate::collider::model::State;
use crate::collider::{
    AuthorityCommandView, AuthorityOperationView, AuthorityResponseView, AuthorityResultView,
};
use crate::ord_map;
use crate::room_table::TableView;
use crate::seqs;
use crate::seqs::Text;
use crate::sfu;
use crate::v2::model::Table;
use vstd::prelude::*;

verus! {

/// All V1 clients, each with its room.
pub open spec fn v1_clients(t: TableView) -> Set<(Text, Text)> {
    Set::new(
        |k: (Text, Text)| t.rooms.contains_key(k.0) && t.rooms[k.0].clients.contains_key(k.1),
    )
}

/// All V1 clients with a connection, each with its room.
pub open spec fn v1_connected(t: TableView) -> Set<(Text, Text)> {
    Set::new(
        |k: (Text, Text)|
            t.rooms.contains_key(k.0) && t.rooms[k.0].clients.contains_key(k.1)
                && t.rooms[k.0].clients[k.1].registered,
    )
}

/// All V2 members, each with its room.
pub open spec fn v2_members(t: Table) -> Set<(u64, u64)> {
    Set::new(|k: (u64, u64)| t.rooms.contains_key(k.0) && t.rooms[k.0].members.contains_key(k.1))
}

/// All V2 members with a browser, each with its room.
pub open spec fn v2_connected(t: Table) -> Set<(u64, u64)> {
    Set::new(
        |k: (u64, u64)|
            t.rooms.contains_key(k.0) && t.rooms[k.0].members.contains_key(k.1)
                && t.rooms[k.0].members[k.1].registered,
    )
}

/// What belongs to the first ones of a row.
spec fn pairs<K, C>(ids: Seq<K>, f: spec_fn(K) -> Set<C>) -> Set<(K, C)> {
    Set::new(|p: (K, C)| ids.contains(p.0) && f(p.0).contains(p.1))
}

/// A sum over a row without duplicates counts all that belongs to it.
proof fn lemma_sum_counts_pairs<K, C>(ids: Seq<K>, f: spec_fn(K) -> Set<C>, g: spec_fn(K) -> nat)
    requires
        ids.no_duplicates(),
        forall|i: int|
            0 <= i < ids.len() ==> f(#[trigger] ids[i]).finite() && g(ids[i]) == f(ids[i]).len(),
    ensures
        pairs(ids, f).finite(),
        seqs::sum(ids.map_values(g)) == pairs(ids, f).len(),
    decreases ids.len(),
{
    if ids.len() == 0 {
        assert(pairs(ids, f) =~= Set::empty());
        assert(ids.map_values(g) =~= Seq::empty());
    } else {
        let front = ids.drop_last();
        let k = ids.last();
        assert(ids[ids.len() - 1] == k);
        assert forall|i: int| 0 <= i < front.len() implies f(#[trigger] front[i]).finite() && g(
            front[i],
        ) == f(front[i]).len() by {
            assert(front[i] == ids[i]);
        }
        lemma_sum_counts_pairs(front, f, g);
        let with = |c: C| (k, c);
        let mine = f(k).map(with);
        assert(vstd::relations::injective_on(with, f(k)));
        vstd::set_lib::lemma_map_size(f(k), mine, with);
        assert(pairs(ids, f) =~= pairs(front, f) + mine) by {
            assert forall|p: (K, C)| pairs(ids, f).contains(p) <==> (pairs(front, f)
                + mine).contains(p) by {
                if pairs(ids, f).contains(p) {
                    let j = choose|j: int| 0 <= j < ids.len() && ids[j] == p.0;
                    if j < front.len() {
                        assert(front[j] == p.0);
                    } else {
                        assert(with(p.1) == p);
                        assert(mine.contains(p));
                    }
                }
                if pairs(front, f).contains(p) {
                    let j = choose|j: int| 0 <= j < front.len() && front[j] == p.0;
                    assert(ids[j] == p.0);
                }
                if mine.contains(p) {
                    let c = choose|c: C| #[trigger] f(k).contains(c) && with(c) == p;
                    assert(p.0 == k && p.1 == c);
                    assert(ids.contains(k));
                }
            }
        }
        assert(pairs(front, f).disjoint(mine)) by {
            assert forall|p: (K, C)| !(pairs(front, f).contains(p) && mine.contains(p)) by {
                if pairs(front, f).contains(p) && mine.contains(p) {
                    let c = choose|c: C| #[trigger] f(k).contains(c) && with(c) == p;
                    let j = choose|j: int| 0 <= j < front.len() && front[j] == p.0;
                    assert(ids[j] == k);
                }
            }
        }
        vstd::set_lib::lemma_set_disjoint_lens(pairs(front, f), mine);
        assert(ids.map_values(g).drop_last() =~= front.map_values(g));
        assert(ids.map_values(g).last() == g(k));
    }
}

proof fn lemma_v1_counts(t: TableView)
    requires
        t.inv(),
    ensures
        t.client_count() == v1_clients(t).len(),
        t.ws_count() == v1_connected(t).len(),
{
    let ids = t.room_ids();
    ord_map::lemma_in_order::<String>(t.rooms.dom());
    ord_map::lemma_ascending_no_duplicates::<String>(ids);
    let f = |r: Text| t.rooms[r].clients.dom();
    let h = |r: Text| t.rooms[r].connected();
    assert forall|i: int| 0 <= i < ids.len() implies t.rooms.contains_key(#[trigger] ids[i]) by {
        assert(ids.contains(ids[i]));
        assert(t.rooms.dom().contains(ids[i]));
    }
    lemma_sum_counts_pairs(ids, f, crate::room_table::client_counts(t.rooms));
    lemma_sum_counts_pairs(ids, h, crate::room_table::connected_counts(t.rooms));
    assert(pairs(ids, f) =~= v1_clients(t)) by {
        assert forall|k: (Text, Text)| pairs(ids, f).contains(k) <==> v1_clients(t).contains(k) by {
            assert(ids.contains(k.0) <==> t.rooms.dom().contains(k.0));
        }
    }
    assert(pairs(ids, h) =~= v1_connected(t)) by {
        assert forall|k: (Text, Text)| pairs(ids, h).contains(k) <==> v1_connected(t).contains(
            k,
        ) by {
            assert(ids.contains(k.0) <==> t.rooms.dom().contains(k.0));
        }
    }
}

proof fn lemma_v2_counts(t: Table)
    requires
        t.inv(),
    ensures
        t.member_count() == v2_members(t).len(),
        t.registered_count() == v2_connected(t).len(),
{
    let ids = ord_map::in_order::<u64>(t.rooms.dom());
    ord_map::lemma_in_order::<u64>(t.rooms.dom());
    ord_map::lemma_ascending_no_duplicates::<u64>(ids);
    let f = |r: u64| t.rooms[r].members.dom();
    let h = |r: u64| t.rooms[r].registered();
    assert forall|i: int| 0 <= i < ids.len() implies t.rooms.contains_key(#[trigger] ids[i]) by {
        assert(ids.contains(ids[i]));
        assert(t.rooms.dom().contains(ids[i]));
    }
    lemma_sum_counts_pairs(ids, f, crate::v2::model::member_counts(t.rooms));
    lemma_sum_counts_pairs(ids, h, crate::v2::model::registered_counts(t.rooms));
    assert(pairs(ids, f) =~= v2_members(t)) by {
        assert forall|k: (u64, u64)| pairs(ids, f).contains(k) <==> v2_members(t).contains(k) by {
            assert(ids.contains(k.0) <==> t.rooms.dom().contains(k.0));
        }
    }
    assert(pairs(ids, h) =~= v2_connected(t)) by {
        assert forall|k: (u64, u64)| pairs(ids, h).contains(k) <==> v2_connected(t).contains(k) by {
            assert(ids.contains(k.0) <==> t.rooms.dom().contains(k.0));
        }
    }
}

/// The V1 and V2 counts are those of the clients that there are, and of those among them
/// that are connected.
pub proof fn law_tables_count_their_clients(v1: TableView, v2: Table)
    requires
        v1.inv(),
        v2.inv(),
    ensures
        v1.client_count() == v1_clients(v1).len(),
        v1.ws_count() == v1_connected(v1).len(),
        v2.member_count() == v2_members(v2).len(),
        v2.registered_count() == v2_connected(v2).len(),
{
    lemma_v1_counts(v1);
    lemma_v2_counts(v2);
}

/// The status tells how many rooms there are, how many clients are in them, how many of
/// those are connected, and how many workers are connected and ready, as far as can be
/// counted to; and what was counted since the start. It changes nothing.
pub proof fn law_status_counts(s: State, request_id: u64)
    requires
        s.inv(),
        s.v2_rooms.actions.len() == 0,
        s.rooms.rooms.dom().len() <= usize::MAX,
        s.v2_rooms.rooms.dom().len() <= usize::MAX,
        s.v2_rooms.workers.dom().len() <= usize::MAX,
    ensures
        ({
            let t = s.handle_authority(
                AuthorityCommandView { request_id, operation: AuthorityOperationView::Status },
            );
            let status = t.authority_responses.last().result->Status_0;
            let clients = v1_clients(s.rooms).len() + v2_members(s.v2_rooms).len();
            let connected = v1_connected(s.rooms).len() + v2_connected(s.v2_rooms).len();
            let workers = s.v2_rooms.workers;
            &&& t == (State {
                authority_responses: s.authority_responses.push(
                    AuthorityResponseView {
                        request_id,
                        result: AuthorityResultView::Status(status),
                    },
                ),
                ..s
            })
            &&& status.rooms == s.rooms.rooms.dom().len()
            &&& status.v2_rooms == s.v2_rooms.rooms.dom().len()
            &&& status.clients == (if clients <= usize::MAX {
                clients
            } else {
                usize::MAX as nat
            })
            &&& status.websocket_connections == (if connected <= usize::MAX {
                connected
            } else {
                usize::MAX as nat
            })
            &&& status.total_websocket_connections == s.total_websocket_connections
            &&& status.websocket_errors == s.websocket_errors
            &&& status.connected_sfu_instances == workers.dom().filter(
                |i: Text| workers[i].connection_id is Some,
            ).len()
            &&& status.ready_sfu_instances == workers.dom().filter(
                |i: Text|
                    workers[i].connection_id is Some && (workers[i].health matches Some(health)
                        && health.state == sfu::State::Ready),
            ).len()
        }),
{
    lemma_v1_counts(s.rooms);
    lemma_v2_counts(s.v2_rooms);
    super::lemma_actions_drained(
        s.with_response(request_id, AuthorityResultView::Status(s.status())),
    );
    let workers = s.v2_rooms.workers;
    let connected = workers.dom().filter(|i: Text| workers[i].connection_id is Some);
    let ready = workers.dom().filter(
        |i: Text|
            workers[i].connection_id is Some && (workers[i].health matches Some(health)
                && health.state == sfu::State::Ready),
    );
    assert(s.v2_rooms.connected_workers() =~= connected);
    assert(s.v2_rooms.ready_workers() =~= ready);
    vstd::set_lib::lemma_len_subset(connected, workers.dom());
    vstd::set_lib::lemma_len_subset(ready, workers.dom());
}

/// A new authority knows nobody and has nothing to say.
pub proof fn law_new_authority_is_empty(timeout: crate::time::Duration)
    ensures
        ({
            let s = State::initial(timeout);
            &&& s.rooms == (TableView { rooms: Map::empty(), register_timeout: timeout })
            &&& s.v2_rooms == Table::initial(timeout)
            &&& s.sessions == Map::<u64, crate::collider::model::Session>::empty()
            &&& s.connections == Map::<(Text, Text), u64>::empty()
            &&& s.v2_connections == Map::<(u64, u64), u64>::empty()
            &&& s.browser_outputs.len() == 0
            &&& s.authority_responses.len() == 0
            &&& s.total_websocket_connections == 0
            &&& s.websocket_errors == 0
        }),
{
}

/// Something is due for the authority exactly if it is in one of the V1 rooms or among the
/// V2 rooms and workers.
pub proof fn law_deadlines_of_the_authority(s: State, at: crate::time::Instant)
    ensures
        s.is_deadline(at) <==> {
            ||| exists|r: Text| #[trigger] s.rooms.rooms.contains_key(r) && s.rooms.is_deadline(r, at)
            ||| s.v2_rooms.is_deadline(at)
        },
{
    if exists|r: Text| s.rooms.is_deadline(r, at) {
        let r = choose|r: Text| s.rooms.is_deadline(r, at);
        assert(s.rooms.rooms.contains_key(r));
    }
    if exists|r: Text| #[trigger] s.rooms.rooms.contains_key(r) && s.rooms.is_deadline(r, at) {
        let r = choose|r: Text| #[trigger]
            s.rooms.rooms.contains_key(r) && s.rooms.is_deadline(r, at);
        assert(s.rooms.is_deadline(r, at));
    }
}

} // verus!
