//! A V1 room and its (at most two) clients.

use crate::client::{Client, ClientEvent, ClientId, ClientView};
use crate::messages::{Message, MessageView};
use crate::ord_map;
use crate::ord_map::OrdMap;
use crate::seqs;
use crate::seqs::Text;
use crate::time;
use crate::time::{Duration, Instant};
use vstd::prelude::*;

pub mod laws;

verus! {

broadcast use {crate::seqs::group_views, crate::ord_map::group_maps};

pub const MAX_ROOM_CAPACITY: usize = 2;

pub type RoomId = String;

/// A room and its (at most two) clients.
///
/// Unregistered clients are reaped from [`Room::handle_timeout`]: each client
/// surfaces [`ClientEvent::Expired`] when its register-timeout elapses.
pub struct Room {
    id: RoomId,
    /// Client id to client.
    clients: OrdMap<ClientId, Client>,
    register_timeout: Duration,
}

#[verifier::ext_equal]
pub struct RoomView {
    pub id: Text,
    pub clients: Map<Text, ClientView>,
    pub register_timeout: Duration,
}

impl View for Room {
    type V = RoomView;

    closed spec fn view(&self) -> RoomView {
        RoomView {
            id: self.id@,
            clients: self.clients@,
            register_timeout: self.register_timeout,
        }
    }
}

/// Holds of every client but one.
pub open spec fn other_than(client_id: Text) -> spec_fn(Text) -> bool {
    |c: Text| c != client_id
}

/// What each client has queued.
pub open spec fn queue_of(clients: Map<Text, ClientView>) -> spec_fn(Text) -> Seq<Text> {
    |c: Text| clients[c].msgs
}

/// Which clients have sent something that waits for the room.
pub open spec fn has_reads(clients: Map<Text, ClientView>) -> spec_fn(Text) -> bool {
    |c: Text| clients[c].reads.len() > 0
}

/// Which clients have something to be written to their sockets.
pub open spec fn has_writes(clients: Map<Text, ClientView>) -> spec_fn(Text) -> bool {
    |c: Text| clients[c].writes.len() > 0
}

/// Which clients have a connection.
pub open spec fn is_registered(clients: Map<Text, ClientView>) -> spec_fn(Text) -> bool {
    |c: Text| clients[c].registered
}

/// Which clients are given up at `now`.
pub open spec fn is_expired(clients: Map<Text, ClientView>, now: Instant) -> spec_fn(Text) -> bool {
    |c: Text| clients[c].ticked(now).events.len() > 0
}

impl RoomView {
    pub open spec fn initial(id: Text, register_timeout: Duration) -> RoomView {
        RoomView { id, clients: Map::empty(), register_timeout }
    }

    pub open spec fn has(self, client_id: Text) -> bool {
        self.clients.contains_key(client_id)
    }

    pub open spec fn is_full(self) -> bool {
        self.clients.dom().len() >= MAX_ROOM_CAPACITY
    }

    pub open spec fn is_empty(self) -> bool {
        self.clients.dom().len() == 0
    }

    /// Whether the client is here or there is a place for it.
    pub open spec fn can_hold(self, client_id: Text) -> bool {
        self.has(client_id) || !self.is_full()
    }

    /// The clients in ascending order.
    pub open spec fn client_ids(self) -> Seq<Text> {
        ord_map::in_order::<String>(self.clients.dom())
    }

    /// The clients but one, in ascending order.
    pub open spec fn others(self, client_id: Text) -> Seq<Text> {
        self.client_ids().filter(other_than(client_id))
    }

    pub open spec fn with_client(self, client_id: Text, client: ClientView) -> RoomView {
        RoomView { clients: self.clients.insert(client_id, client), ..self }
    }

    /// The room with the client in it, new if it was not there.
    pub open spec fn joined(self, now: Instant, client_id: Text) -> RoomView {
        if self.has(client_id) {
            self
        } else {
            self.with_client(
                client_id,
                ClientView::created(client_id, self.id, Some(now.later(self.register_timeout))),
            )
        }
    }

    pub open spec fn register(self, now: Instant, client_id: Text) -> (
        RoomView,
        Result<(), Text>,
    ) {
        let room = self.joined(now, client_id);
        let client = room.clients[client_id];
        if !self.can_hold(client_id) {
            (self, Err("Max room capacity reached"@))
        } else if client.registered {
            (self, Err("Duplicated registration"@))
        } else {
            (
                room.with_client(client_id, client.connected()).with_queue_flushed_to(client_id),
                Ok(()),
            )
        }
    }

    /// The queued messages of the other client, if any, went to this one.
    pub open spec fn with_queue_flushed_to(self, client_id: Text) -> RoomView {
        let others = self.others(client_id);
        let client = self.clients[client_id];
        let other = self.clients[others[0]];
        if others.len() > 0 && other.can_flush_to(client) {
            self.with_client(client_id, other.flushed_to(client)).with_client(
                others[0],
                other.without_msgs(),
            )
        } else {
            self
        }
    }

    pub open spec fn send(self, now: Instant, source_id: Text, msg: Text) -> (
        RoomView,
        Result<(), Text>,
    ) {
        let room = self.joined(now, source_id);
        let source = room.clients[source_id];
        let others = room.others(source_id);
        if !self.can_hold(source_id) {
            (self, Err("Max room capacity reached"@))
        } else if others.len() == 0 {
            if source.has_room_in_queue() {
                (room.with_client(source_id, source.with_queued(msg)), Ok(()))
            } else {
                (room, Err("Too many messages queued for the client"@))
            }
        } else {
            let (sender, receiver, result) = source.send(room.clients[others[0]], msg);
            (room.with_client(source_id, sender).with_client(others[0], receiver), result)
        }
    }

    /// The room without the client; whoever is left is the initiator.
    pub open spec fn without(self, client_id: Text) -> RoomView {
        if self.has(client_id) {
            RoomView {
                clients: self.clients.remove(client_id).map_entries(
                    |id: Text, c: ClientView| c.with_initiator(true),
                ),
                ..self
            }
        } else {
            self
        }
    }

    pub open spec fn is_connected(self, client_id: Text) -> bool {
        self.has(client_id) && self.clients[client_id].registered
    }

    /// A connected client has lost its connection and has the register timeout
    /// to come back.
    pub open spec fn deregistered(self, now: Instant, client_id: Text) -> RoomView {
        if self.is_connected(client_id) {
            self.with_client(
                client_id,
                self.clients[client_id].disconnected().with_timer(
                    Some(now.later(self.register_timeout)),
                ),
            )
        } else {
            self
        }
    }

    pub open spec fn add_client(self, now: Instant, client_id: Text, is_loopback: bool) -> (
        RoomView,
        Result<(bool, Seq<Text>), Text>,
    ) {
        if self.has(client_id) {
            (self, Err("DUPLICATE_CLIENT"@))
        } else if self.is_full() {
            (self, Err("FULL"@))
        } else {
            let is_initiator = self.is_empty();
            let room = self.with_queues_drained().joined(now, client_id);
            let elected = room.with_client(
                client_id,
                room.clients[client_id].with_initiator(is_initiator),
            );
            (
                if is_loopback {
                    elected.with_loopback(now)
                } else {
                    elected
                },
                Ok((is_initiator, self.queued())),
            )
        }
    }

    /// What the clients have queued, in ascending order of the clients.
    pub open spec fn queued(self) -> Seq<Text> {
        self.client_ids().map_values(queue_of(self.clients)).flatten()
    }

    pub open spec fn with_queues_drained(self) -> RoomView {
        RoomView {
            clients: self.clients.map_entries(|id: Text, c: ClientView| c.without_msgs()),
            ..self
        }
    }

    /// The room with the synthetic peer of the loopback debug mode, if there is
    /// a place for it.
    pub open spec fn with_loopback(self, now: Instant) -> RoomView {
        let peer = "LOOPBACK_CLIENT_ID"@;
        let room = self.joined(now, peer);
        if self.can_hold(peer) {
            room.with_client(peer, room.clients[peer].with_initiator(false))
        } else {
            self
        }
    }

    pub open spec fn connected(self) -> Set<Text> {
        self.clients.dom().filter(is_registered(self.clients))
    }

    pub open spec fn after_read(self, msg: MessageView) -> RoomView {
        if self.has(msg.clientid) {
            self.with_client(msg.clientid, self.clients[msg.clientid].with_read(msg))
        } else {
            self
        }
    }

    pub open spec fn after_write(self, msg: MessageView) -> RoomView {
        if self.has(msg.clientid) {
            self.with_client(msg.clientid, self.clients[msg.clientid].with_written(msg))
        } else {
            self
        }
    }

    /// The next message that the first client with one has sent.
    pub open spec fn poll_read(self) -> (RoomView, Option<MessageView>) {
        let waiting = self.client_ids().filter(has_reads(self.clients));
        if waiting.len() == 0 {
            (self, None)
        } else {
            let c = self.clients[waiting[0]];
            (
                self.with_client(waiting[0], ClientView { reads: c.reads.skip(1), ..c }),
                Some(c.reads[0]),
            )
        }
    }

    /// The next message for the first client that has one.
    pub open spec fn poll_write(self) -> (RoomView, Option<MessageView>) {
        let waiting = self.client_ids().filter(has_writes(self.clients));
        if waiting.len() == 0 {
            (self, None)
        } else {
            let c = self.clients[waiting[0]];
            (
                self.with_client(waiting[0], ClientView { writes: c.writes.skip(1), ..c }),
                Some(c.writes[0]),
            )
        }
    }

    /// The clients that are given up at `now`, in ascending order.
    pub open spec fn expired(self, now: Instant) -> Seq<Text> {
        self.client_ids().filter(is_expired(self.clients, now))
    }

    /// The room after every client has seen the time and its events were taken.
    pub open spec fn ticked(self, now: Instant) -> RoomView {
        RoomView {
            clients: self.clients.map_entries(
                |id: Text, c: ClientView| ClientView { events: Seq::empty(), ..c.ticked(now) },
            ),
            ..self
        }
    }

    /// The room without the clients that did not register in time; where there
    /// were any, whoever is left is the initiator.
    pub open spec fn handle_timeout(self, now: Instant) -> RoomView {
        RoomView {
            clients: Map::new(
                |id: Text| self.has(id) && !is_expired(self.clients, now)(id),
                |id: Text|
                    if self.expired(now).len() > 0 {
                        self.clients[id].with_initiator(true)
                    } else {
                        self.clients[id]
                    },
            ),
            ..self
        }
    }

    pub open spec fn is_deadline(self, client_id: Text, t: Instant) -> bool {
        self.has(client_id) && self.clients[client_id].timeout == Some(t)
    }
}

impl Room {
    pub fn new(id: RoomId, register_timeout: Duration) -> (r: Room)
        ensures
            r@ == RoomView::initial(id@, register_timeout),
    {
        Room { id, clients: OrdMap::new(), register_timeout }
    }

    pub fn id(&self) -> (r: &RoomId)
        ensures
            r@ == self@.id,
    {
        &self.id
    }

    /// Makes sure that the client is in the room, with a fresh register-timeout
    /// deadline if it is new; says whether it is.
    fn ensure_client(&mut self, now: Instant, client_id: &ClientId) -> (r: bool)
        ensures
            r == old(self)@.can_hold(client_id@),
            final(self)@ == if r {
                old(self)@.joined(now, client_id@)
            } else {
                old(self)@
            },
    {
        if !self.clients.contains_key(client_id) {
            if self.clients.len() >= MAX_ROOM_CAPACITY {
                return false;
            }
            let timeout = Some(now.after(self.register_timeout));
            self.clients.insert(
                client_id.clone(),
                Client::new(client_id.clone(), self.id.clone(), timeout),
            );
        }
        true
    }

    /// Returns the client, creating it (with a fresh register-timeout deadline) if
    /// it does not exist and the room is not full.
    pub fn client(&mut self, now: Instant, client_id: &ClientId) -> (r: Result<
        &mut Client,
        String,
    >)
        ensures
            match r {
                Ok(c) => {
                    &&& old(self)@.can_hold(client_id@)
                    &&& c@ == old(self)@.joined(now, client_id@).clients[client_id@]
                    &&& final(self)@ == old(self)@.with_client(client_id@, (*final(c))@)
                },
                Err(e) => {
                    &&& !old(self)@.can_hold(client_id@)
                    &&& final(self)@ == old(self)@
                    &&& e@ == "Max room capacity reached"@
                },
            },
    {
        let ghost before = self@;
        if !self.ensure_client(now, client_id) {
            return Err("Max room capacity reached".to_string());
        }
        match self.clients.get_mut(client_id) {
            Some(c) => {
                assert(before.joined(now, client_id@).with_client(client_id@, (*final(c))@)
                    =~= before.with_client(client_id@, (*final(c))@));
                Ok(c)
            },
            None => Err("Max room capacity reached".to_string()),
        }
    }

    /// The clients but one, in ascending order.
    fn other_clients(&self, client_id: &ClientId) -> (r: Vec<ClientId>)
        ensures
            seqs::views(r@) == self@.others(client_id@),
    {
        let keys = self.clients.keys();
        let ghost ids = seqs::views(keys@);
        let ghost p = other_than(client_id@);
        proof {
            seqs::lemma_filter_ends(ids, p);
        }
        let mut r: Vec<ClientId> = Vec::new();
        let mut i: usize = 0;
        while i < keys.len()
            invariant
                i <= keys@.len(),
                ids == seqs::views(keys@),
                p == other_than(client_id@),
                seqs::views(r@) == ids.take(i as int).filter(p),
            decreases keys@.len() - i,
        {
            proof {
                seqs::lemma_filter_take(ids, p, i as int);
            }
            if keys[i] != *client_id {
                r.push(keys[i].clone());
            }
            i = i + 1;
        }
        r
    }

    /// Registers a client's connection, then flushes the other client's queued
    /// messages to it.
    pub fn register(&mut self, now: Instant, client_id: &ClientId) -> (r: Result<(), String>)
        ensures
            (final(self)@, seqs::result_view(r)) == old(self)@.register(now, client_id@),
    {
        match self.client(now, client_id) {
            Err(e) => {
                return Err(e);
            },
            Ok(client) => match client.register() {
                Err(e) => {
                    return Err(e);
                },
                Ok(_) => {},
            },
        }
        assert(self@ =~= old(self)@.joined(now, client_id@).with_client(
            client_id@,
            old(self)@.joined(now, client_id@).clients[client_id@].connected(),
        ));
        self.flush_queue_to(client_id);
        Ok(())
    }

    fn flush_queue_to(&mut self, client_id: &ClientId)
        requires
            old(self)@.has(client_id@),
        ensures
            final(self)@ == old(self)@.with_queue_flushed_to(client_id@),
    {
        let others = self.other_clients(client_id);
        let ghost before = self@;
        proof {
            lemma_others(before, client_id@);
        }
        if others.len() > 0 {
            if let Some(mut other) = self.clients.remove(&others[0]) {
                if let Some(client) = self.clients.get_mut(client_id) {
                    let _ = other.send_queued(client);
                }
                self.clients.insert(others[0].clone(), other);
                assert(self@ =~= before.with_queue_flushed_to(client_id@));
            }
        }
    }

    /// Sends `msg` to the other client of the room, or queues it on the source
    /// client if the other client has not joined.
    pub fn send(&mut self, now: Instant, src_id: &ClientId, msg: String) -> (r: Result<(), String>)
        ensures
            (final(self)@, seqs::result_view(r)) == old(self)@.send(now, src_id@, msg@),
    {
        if !self.ensure_client(now, src_id) {
            return Err("Max room capacity reached".to_string());
        }
        let others = self.other_clients(src_id);
        let ghost room = self@;
        proof {
            lemma_others(room, src_id@);
        }
        if others.len() > 0 {
            if let Some(mut other) = self.clients.remove(&others[0]) {
                let ghost receiver = other@;
                if let Some(source) = self.clients.get_mut(src_id) {
                    let r = source.send(&mut other, msg);
                    self.clients.insert(others[0].clone(), other);
                    assert(self@ =~= room.with_client(
                        src_id@,
                        room.clients[src_id@].send(receiver, msg@).0,
                    ).with_client(
                        others[0]@,
                        room.clients[src_id@].send(receiver, msg@).1,
                    ));
                    return r;
                }
            }
        }
        match self.clients.get_mut(src_id) {
            Some(source) => source.enqueue(msg),
            None => Ok(()),
        }
    }

    /// Removes the client and promotes the surviving client (if any) to initiator so
    /// it can accept a new peer.
    pub fn remove(&mut self, client_id: &ClientId)
        ensures
            final(self)@ == old(self)@.without(client_id@),
    {
        if self.clients.remove(client_id).is_some() {
            let ghost start = self.clients@;
            let ghost f = |id: Text, c: ClientView| c.with_initiator(true);
            let keys = self.clients.keys();
            let ghost ids = seqs::views(keys@);
            proof {
                ord_map::lemma_in_order::<String>(start.dom());
                ord_map::lemma_ascending_no_duplicates::<String>(ids);
            }
            let mut i: usize = 0;
            while i < keys.len()
                invariant
                    i <= keys@.len(),
                    ids == seqs::views(keys@),
                    ids.no_duplicates(),
                    forall|c: Text| #[trigger] start.dom().contains(c) <==> ids.contains(c),
                    f == (|id: Text, c: ClientView| c.with_initiator(true)),
                    self@ == (RoomView { clients: self@.clients, ..old(self)@ }),
                    self@.clients.dom() == start.dom(),
                    forall|j: int|
                        0 <= j < i ==> self@.clients[#[trigger] ids[j]] == f(
                            ids[j],
                            start[ids[j]],
                        ),
                    forall|j: int|
                        i <= j < ids.len() ==> self@.clients[#[trigger] ids[j]] == start[ids[j]],
                decreases keys@.len() - i,
            {
                assert(ids.contains(ids[i as int]));
                assert(start.dom().contains(ids[i as int]));
                if let Some(other) = self.clients.get_mut(&keys[i]) {
                    other.set_initiator(true);
                }
                assert(self@.clients.dom() =~= start.dom());
                i = i + 1;
            }
            assert(self@.clients =~= start.map_entries(f)) by {
                assert forall|c: Text| start.dom().contains(c) implies self@.clients[c] == f(
                    c,
                    start[c],
                ) by {
                    assert(ids.contains(c));
                }
            }
        }
    }

    /// Clears a client's live registration and arms the reconnect grace period.
    pub fn deregister(&mut self, now: Instant, client_id: &ClientId) -> (r: bool)
        ensures
            r == old(self)@.is_connected(client_id@),
            final(self)@ == old(self)@.deregistered(now, client_id@),
    {
        if let Some(client) = self.clients.get_mut(client_id) {
            if client.registered() {
                client.deregister();
                client.set_timer(Some(now.after(self.register_timeout)));
                return true;
            }
        }
        false
    }

    /// Removes a client only when it is still unregistered.
    pub fn remove_if_unregistered(&mut self, client_id: &ClientId) -> (r: bool)
        ensures
            r == (old(self)@.has(client_id@) && !old(self)@.is_connected(client_id@)),
            final(self)@ == if r {
                old(self)@.without(client_id@)
            } else {
                old(self)@
            },
    {
        let unregistered = match self.clients.get(client_id) {
            Some(client) => !client.registered(),
            None => false,
        };
        if unregistered {
            self.remove(client_id);
        }
        unregistered
    }

    pub fn client_is_initiator(&self, client_id: &ClientId) -> (r: bool)
        ensures
            r == (self@.has(client_id@) && self@.clients[client_id@].is_initiator),
    {
        match self.clients.get(client_id) {
            Some(client) => client.is_initiator(),
            None => false,
        }
    }

    /// Allocates a new client for a join request: elects the initiator (first client
    /// in the room) and returns the messages queued by the other client so the joiner
    /// can replay the existing offer and candidates.
    pub fn add_client(&mut self, now: Instant, client_id: &ClientId, is_loopback: bool) -> (r:
        Result<(bool, Vec<String>), String>)
        ensures
            final(self)@ == old(self)@.add_client(now, client_id@, is_loopback).0,
            join_result(r) == old(self)@.add_client(now, client_id@, is_loopback).1,
    {
        if self.clients.contains_key(client_id) {
            return Err("DUPLICATE_CLIENT".to_string());
        }
        if self.clients.len() >= MAX_ROOM_CAPACITY {
            return Err("FULL".to_string());
        }
        let ghost before = self@;
        let is_initiator = self.clients.is_empty();
        let messages = self.drain_queues();
        assert(self@.clients.dom() =~= before.clients.dom());
        match self.client(now, client_id) {
            Ok(client) => {
                client.set_initiator(is_initiator);
            },
            Err(e) => {
                return Err(e);
            },
        }
        if is_loopback {
            // The loopback debug path adds a second, non-initiator client.
            let peer = "LOOPBACK_CLIENT_ID".to_string();
            if let Ok(client) = self.client(now, &peer) {
                client.set_initiator(false);
            }
        }
        Ok((is_initiator, messages))
    }

    /// Hands out everything that is queued.
    fn drain_queues(&mut self) -> (r: Vec<String>)
        ensures
            final(self)@ == old(self)@.with_queues_drained(),
            seqs::views(r@) == old(self)@.queued(),
    {
        let keys = self.clients.keys();
        let ghost ids = seqs::views(keys@);
        let ghost start = self@.clients;
        let ghost f = |id: Text, c: ClientView| c.without_msgs();
        let ghost g = queue_of(start);
        proof {
            ord_map::lemma_in_order::<String>(start.dom());
            ord_map::lemma_ascending_no_duplicates::<String>(ids);
            assert(ids.take(0).map_values(g) =~= Seq::empty());
        }
        let mut r: Vec<String> = Vec::new();
        let mut i: usize = 0;
        while i < keys.len()
            invariant
                i <= keys@.len(),
                ids == seqs::views(keys@),
                ids.no_duplicates(),
                forall|c: Text| #[trigger] start.dom().contains(c) <==> ids.contains(c),
                f == (|id: Text, c: ClientView| c.without_msgs()),
                g == queue_of(start),
                self@ == (RoomView { clients: self@.clients, ..old(self)@ }),
                self@.clients.dom() == start.dom(),
                forall|j: int|
                    0 <= j < i ==> self@.clients[#[trigger] ids[j]] == f(ids[j], start[ids[j]]),
                forall|j: int|
                    i <= j < ids.len() ==> self@.clients[#[trigger] ids[j]] == start[ids[j]],
                seqs::views(r@) == ids.take(i as int).map_values(g).flatten(),
            decreases keys@.len() - i,
        {
            assert(ids.contains(ids[i as int]));
            assert(start.dom().contains(ids[i as int]));
            proof {
                let taken = ids.take(i as int);
                assert(ids.take(i + 1).map_values(g) =~= taken.map_values(g).push(
                    g(ids[i as int]),
                ));
                taken.map_values(g).lemma_flatten_push(g(ids[i as int]));
            }
            if let Some(other) = self.clients.get_mut(&keys[i]) {
                let mut msgs = other.drain_msgs();
                let ghost queued = seqs::views(msgs@);
                let ghost sofar = seqs::views(r@);
                r.append(&mut msgs);
                assert(seqs::views(r@) =~= sofar + queued);
            }
            assert(self@.clients.dom() =~= start.dom());
            i = i + 1;
        }
        assert(ids.take(i as int) =~= ids);
        assert(self@.clients =~= start.map_entries(f)) by {
            assert forall|c: Text| start.dom().contains(c) implies self@.clients[c] == f(
                c,
                start[c],
            ) by {
                assert(ids.contains(c));
            }
        }
        r
    }

    /// The number of clients in the room.
    pub fn occupancy(&self) -> (r: usize)
        ensures
            r == self@.clients.dom().len(),
    {
        self.clients.len()
    }

    /// True if there is no client in the room.
    pub fn empty(&self) -> (r: bool)
        ensures
            r == self@.is_empty(),
    {
        self.clients.is_empty()
    }

    /// The number of clients with a live connection registered.
    pub fn ws_count(&self) -> (r: usize)
        ensures
            r == self@.connected().len(),
    {
        let ghost ids = self@.client_ids();
        let ghost p = is_registered(self@.clients);
        proof {
            ord_map::lemma_in_order::<String>(self@.clients.dom());
            seqs::lemma_filter_ends(ids, p);
            ord_map::lemma_filter_len::<String>(self@.clients.dom(), p);
        }
        let mut r: usize = 0;
        let mut i: usize = 0;
        while i < self.clients.len()
            invariant
                i <= self@.clients.dom().len(),
                r <= i,
                ids == self@.client_ids(),
                ids.len() == self@.clients.dom().len(),
                p == is_registered(self@.clients),
                r == ids.take(i as int).filter(p).len(),
            decreases self@.clients.dom().len() - i,
        {
            proof {
                seqs::lemma_filter_take(ids, p, i as int);
            }
            if self.clients.value_at(i).registered() {
                r = r + 1;
            }
            i = i + 1;
        }
        r
    }

    /// Routes an inbound message to the client. An unknown client is dropped.
    pub fn handle_read(&mut self, msg: Message) -> (r: Result<(), String>)
        ensures
            r is Ok,
            final(self)@ == old(self)@.after_read(msg@),
    {
        if let Some(c) = self.clients.get_mut(&msg.clientid) {
            return c.handle_read(msg);
        }
        Ok(())
    }

    /// Drains the next message received from any client, tagged with its id.
    pub fn poll_read(&mut self) -> (r: Option<Message>)
        ensures
            (final(self)@, seqs::opt_view(r)) == old(self)@.poll_read(),
    {
        let keys = self.clients.keys();
        let ghost ids = seqs::views(keys@);
        let ghost p = has_reads(self@.clients);
        proof {
            ord_map::lemma_in_order::<String>(self@.clients.dom());
            seqs::lemma_filter_ends(ids, p);
        }
        let mut i: usize = 0;
        while i < keys.len()
            invariant
                i <= keys@.len(),
                ids == seqs::views(keys@),
                self@ == old(self)@,
                ids == self@.client_ids(),
                p == has_reads(self@.clients),
                forall|c: Text| #[trigger] self@.clients.dom().contains(c) <==> ids.contains(c),
                ids.take(i as int).filter(p).len() == 0,
            decreases keys@.len() - i,
        {
            assert(ids.contains(ids[i as int]));
            assert(self@.clients.dom().contains(ids[i as int]));
            proof {
                seqs::lemma_filter_take(ids, p, i as int);
            }
            if let Some(client) = self.clients.get_mut(&keys[i]) {
                let ghost c = client@;
                if let Some(msg) = client.poll_read() {
                    proof {
                        seqs::lemma_filter_first(ids, p, i as int);
                    }
                    return Some(msg);
                }
            }
            i = i + 1;
        }
        None
    }

    /// Delivers a message to the client (dropped if the client is unknown).
    pub fn handle_write(&mut self, msg: Message) -> (r: Result<(), String>)
        ensures
            r is Ok,
            final(self)@ == old(self)@.after_write(msg@),
    {
        if let Some(c) = self.clients.get_mut(&msg.clientid) {
            return c.handle_write(msg);
        }
        Ok(())
    }

    /// Drains the next server-to-client message from any client, tagged with its id,
    /// for the driver to frame and write to that client's socket.
    pub fn poll_write(&mut self) -> (r: Option<Message>)
        ensures
            (final(self)@, seqs::opt_view(r)) == old(self)@.poll_write(),
    {
        let keys = self.clients.keys();
        let ghost ids = seqs::views(keys@);
        let ghost p = has_writes(self@.clients);
        proof {
            ord_map::lemma_in_order::<String>(self@.clients.dom());
            seqs::lemma_filter_ends(ids, p);
        }
        let mut i: usize = 0;
        while i < keys.len()
            invariant
                i <= keys@.len(),
                ids == seqs::views(keys@),
                self@ == old(self)@,
                ids == self@.client_ids(),
                p == has_writes(self@.clients),
                forall|c: Text| #[trigger] self@.clients.dom().contains(c) <==> ids.contains(c),
                ids.take(i as int).filter(p).len() == 0,
            decreases keys@.len() - i,
        {
            assert(ids.contains(ids[i as int]));
            assert(self@.clients.dom().contains(ids[i as int]));
            proof {
                seqs::lemma_filter_take(ids, p, i as int);
            }
            if let Some(client) = self.clients.get_mut(&keys[i]) {
                if let Some(msg) = client.poll_write() {
                    proof {
                        seqs::lemma_filter_first(ids, p, i as int);
                    }
                    return Some(msg);
                }
            }
            i = i + 1;
        }
        None
    }

    /// Ticks every client and reaps those whose register-timeout elapsed while still
    /// unregistered, promoting any survivor.
    pub fn handle_timeout(&mut self, now: Instant) -> (r: Result<(), String>)
        ensures
            r is Ok,
            final(self)@ == old(self)@.handle_timeout(now),
    {
        let ghost before = self@;
        let expired = self.tick(now);
        let ghost gone = seqs::views(expired@);
        let ghost ticked = self@;
        let mut i: usize = 0;
        proof {
            ord_map::lemma_in_order::<String>(before.clients.dom());
            seqs::lemma_filter_contains(before.client_ids(), is_expired(before.clients, now));
            assert(gone.take(0) =~= Seq::empty());
            assert(self@.clients =~= ticked.without_all(gone.take(0)).clients);
        }
        while i < expired.len()
            invariant
                i <= expired@.len(),
                gone == seqs::views(expired@),
                forall|j: int| 0 <= j < gone.len() ==> ticked.has(#[trigger] gone[j]),
                self@ == ticked.without_all(gone.take(i as int)),
            decreases expired@.len() - i,
        {
            proof {
                lemma_without_all(ticked, gone, i as int);
            }
            self.remove(&expired[i]);
            i = i + 1;
        }
        proof {
            assert(gone.take(i as int) =~= gone);
            assert forall|id: Text| gone.contains(id) <==> before.has(id) && is_expired(
                before.clients,
                now,
            )(id) by {
                assert(before.expired(now).contains(id) <==> before.client_ids().contains(id)
                    && is_expired(before.clients, now)(id));
                assert(before.clients.dom().contains(id) <==> before.client_ids().contains(id));
            }
            assert forall|id: Text| before.has(id) && !is_expired(before.clients, now)(
                id,
            ) implies ticked.clients[id] == before.clients[id] by {
                assert(before.clients[id].events =~= Seq::empty());
            }
            assert(self@.clients =~= before.handle_timeout(now).clients);
        }
        Ok(())
    }

    /// Ticks every client, takes their events, and lists those that expired.
    fn tick(&mut self, now: Instant) -> (r: Vec<ClientId>)
        ensures
            seqs::views(r@) == old(self)@.expired(now),
            final(self)@ == old(self)@.ticked(now),
            forall|j: int| 0 <= j < r@.len() ==> old(self)@.has(#[trigger] seqs::views(r@)[j]),
    {
        let keys = self.clients.keys();
        let ghost ids = seqs::views(keys@);
        let ghost start = self@.clients;
        let ghost f = |id: Text, c: ClientView|
            ClientView { events: Seq::empty(), ..c.ticked(now) };
        let ghost p = is_expired(start, now);
        proof {
            ord_map::lemma_in_order::<String>(start.dom());
            ord_map::lemma_ascending_no_duplicates::<String>(ids);
            seqs::lemma_filter_ends(ids, p);
        }
        let mut r: Vec<ClientId> = Vec::new();
        let mut i: usize = 0;
        while i < keys.len()
            invariant
                i <= keys@.len(),
                ids == seqs::views(keys@),
                ids.no_duplicates(),
                forall|c: Text| #[trigger] start.dom().contains(c) <==> ids.contains(c),
                f == (|id: Text, c: ClientView|
                    ClientView { events: Seq::empty(), ..c.ticked(now) }),
                p == is_expired(start, now),
                self@ == (RoomView { clients: self@.clients, ..old(self)@ }),
                self@.clients.dom() == start.dom(),
                forall|j: int|
                    0 <= j < i ==> self@.clients[#[trigger] ids[j]] == f(ids[j], start[ids[j]]),
                forall|j: int|
                    i <= j < ids.len() ==> self@.clients[#[trigger] ids[j]] == start[ids[j]],
                seqs::views(r@) == ids.take(i as int).filter(p),
            decreases keys@.len() - i,
        {
            assert(ids.contains(ids[i as int]));
            assert(start.dom().contains(ids[i as int]));
            proof {
                seqs::lemma_filter_take(ids, p, i as int);
            }
            if let Some(client) = self.clients.get_mut(&keys[i]) {
                let _ = client.handle_timeout(now);
                if take_events(client) {
                    r.push(keys[i].clone());
                }
            }
            assert(self@.clients.dom() =~= start.dom());
            i = i + 1;
        }
        assert(self@.clients =~= start.map_entries(f)) by {
            assert forall|c: Text| start.dom().contains(c) implies self@.clients[c] == f(
                c,
                start[c],
            ) by {
                assert(ids.contains(c));
            }
        }
        proof {
            seqs::lemma_filter_contains(ids, p);
            assert forall|j: int| 0 <= j < r@.len() implies start.contains_key(
                #[trigger] seqs::views(r@)[j],
            ) by {
                assert(ids.filter(p).contains(ids.filter(p)[j]));
                assert(start.dom().contains(ids.filter(p)[j]));
            }
        }
        r
    }

    /// The earliest register-timeout deadline across the room's clients.
    pub fn poll_timeout(&self) -> (r: Option<Instant>)
        ensures
            time::is_earliest(r, |t: Instant| exists|c: Text| self@.is_deadline(c, t)),
    {
        let ghost ids = self@.client_ids();
        proof {
            ord_map::lemma_in_order::<String>(self@.clients.dom());
        }
        let mut r: Option<Instant> = None;
        let mut i: usize = 0;
        while i < self.clients.len()
            invariant
                i <= self@.clients.dom().len(),
                ids == self@.client_ids(),
                ids.len() == self@.clients.dom().len(),
                forall|c: Text| #[trigger] self@.clients.dom().contains(c) <==> ids.contains(c),
                time::is_earliest(
                    r,
                    |t: Instant|
                        exists|j: int| 0 <= j < i && self@.is_deadline(#[trigger] ids[j], t),
                ),
            decreases self@.clients.dom().len() - i,
        {
            assert(ids.contains(ids[i as int]));
            assert(self@.clients.dom().contains(ids[i as int]));
            let next = self.clients.value_at(i).poll_timeout();
            proof {
                let p = |t: Instant|
                    exists|j: int| 0 <= j < i && self@.is_deadline(#[trigger] ids[j], t);
                let q = |t: Instant| self@.is_deadline(ids[i as int], t);
                assert(time::is_earliest(next, q));
                time::lemma_earliest_either(r, next, p, q);
                let s = |t: Instant|
                    exists|j: int| 0 <= j < i + 1 && self@.is_deadline(#[trigger] ids[j], t);
                assert forall|t: Instant| (#[trigger] p(t) || q(t)) <==> s(t) by {
                    if q(t) {
                        assert(self@.is_deadline(ids[i as int], t));
                    }
                }
                time::lemma_earliest_same(
                    time::earliest_of(r, next),
                    |t: Instant| p(t) || q(t),
                    s,
                );
            }
            r = time::earlier(r, next);
            i = i + 1;
        }
        proof {
            let p = |t: Instant|
                exists|j: int| 0 <= j < i && self@.is_deadline(#[trigger] ids[j], t);
            let q = |t: Instant| exists|c: Text| self@.is_deadline(c, t);
            assert forall|t: Instant| #[trigger] p(t) <==> q(t) by {
                if q(t) {
                    let c = choose|c: Text| self@.is_deadline(c, t);
                    assert(self@.clients.dom().contains(c));
                    assert(ids.contains(c));
                    let j = choose|j: int| 0 <= j < ids.len() && ids[j] == c;
                    assert(self@.is_deadline(ids[j], t));
                }
            }
            time::lemma_earliest_same(r, p, q);
        }
        r
    }

    pub fn close(&mut self) -> (r: Result<(), String>)
        ensures
            r is Ok,
            final(self)@ == RoomView::initial(old(self)@.id, old(self)@.register_timeout),
    {
        self.clients.clear();
        Ok(())
    }
}

/// The outcome of a join request.
pub open spec fn join_result(r: Result<(bool, Vec<String>), String>) -> Result<
    (bool, Seq<Text>),
    Text,
> {
    match r {
        Ok((is_initiator, messages)) => Ok((is_initiator, seqs::views(messages@))),
        Err(e) => Err(e@),
    }
}

/// Takes all events of a client; says whether it expired.
fn take_events(client: &mut Client) -> (r: bool)
    ensures
        r == (old(client)@.events.len() > 0),
        final(client)@ == (ClientView { events: Seq::empty(), ..old(client)@ }),
{
    let ghost start = client@;
    let mut expired = false;
    let mut more = true;
    while more
        invariant
            client@ == (ClientView { events: client@.events, ..start }),
            expired || client@.events == start.events,
            expired ==> start.events.len() > 0,
            !more ==> client@.events.len() == 0,
        decreases client@.events.len() + if more {
            1int
        } else {
            0int
        },
    {
        match client.poll_event() {
            Some(ClientEvent::Expired) => {
                expired = true;
            },
            None => {
                more = false;
            },
        }
    }
    assert(client@.events =~= Seq::empty());
    expired
}

impl RoomView {
    /// The room without some of its clients.
    spec fn without_all(self, gone: Seq<Text>) -> RoomView {
        RoomView {
            clients: Map::new(
                |id: Text| self.has(id) && !gone.contains(id),
                |id: Text|
                    if gone.len() > 0 {
                        self.clients[id].with_initiator(true)
                    } else {
                        self.clients[id]
                    },
            ),
            ..self
        }
    }
}

proof fn lemma_without_all(room: RoomView, gone: Seq<Text>, i: int)
    requires
        0 <= i < gone.len(),
        room.has(gone[i]),
    ensures
        room.without_all(gone.take(i)).without(gone[i]) == room.without_all(gone.take(i + 1)),
{
    let taken = gone.take(i);
    let next = gone.take(i + 1);
    assert(next =~= taken.push(gone[i]));
    assert forall|c: Text| next.contains(c) <==> taken.contains(c) || c == gone[i] by {
        if taken.contains(c) {
            let m = choose|m: int| 0 <= m < taken.len() && taken[m] == c;
            assert(next[m] == c);
        }
        assert(next[i] == gone[i]);
        if next.contains(c) {
            let m = choose|m: int| 0 <= m < next.len() && next[m] == c;
            assert(m < i ==> taken[m] == c);
        }
    }
    assert(room.without_all(taken).without(gone[i]).clients =~= room.without_all(next).clients);
}

/// The other clients are clients, and other ones.
proof fn lemma_others(room: RoomView, client_id: Text)
    requires
        room.clients.dom().finite(),
    ensures
        forall|j: int|
            0 <= j < room.others(client_id).len() ==> room.has(
                #[trigger] room.others(client_id)[j],
            ) && room.others(client_id)[j] != client_id,
{
    ord_map::lemma_in_order::<String>(room.clients.dom());
    seqs::lemma_filter_contains(room.client_ids(), other_than(client_id));
    assert forall|j: int| 0 <= j < room.others(client_id).len() implies room.has(
        #[trigger] room.others(client_id)[j],
    ) && room.others(client_id)[j] != client_id by {
        assert(room.others(client_id).contains(room.others(client_id)[j]));
        assert(room.clients.dom().contains(room.others(client_id)[j]));
    }
}

/// A room has finitely many clients.
pub broadcast proof fn lemma_finite(r: Room)
    ensures
        #[trigger] r@.clients.dom().finite(),
{
}

/// What each client has sent to the room.
pub open spec fn reads_of(clients: Map<Text, ClientView>) -> Map<Text, Seq<MessageView>> {
    clients.map_values(|c: ClientView| c.reads)
}

/// What is to be written to each client.
pub open spec fn writes_of(clients: Map<Text, ClientView>) -> Map<Text, Seq<MessageView>> {
    clients.map_values(|c: ClientView| c.writes)
}

impl RoomView {
    /// All messages that clients have sent to the room, in the order in which they
    /// are polled.
    pub open spec fn reads(self) -> Seq<MessageView> {
        ord_map::concat_in_order::<String, MessageView>(reads_of(self.clients))
    }

    /// All messages for clients, in the order in which they are polled.
    pub open spec fn writes(self) -> Seq<MessageView> {
        ord_map::concat_in_order::<String, MessageView>(writes_of(self.clients))
    }

    /// The room once all messages for clients have been taken.
    pub open spec fn without_writes(self) -> RoomView {
        RoomView {
            clients: self.clients.map_values(
                |c: ClientView| ClientView { writes: Seq::empty(), ..c },
            ),
            ..self
        }
    }
}

/// Polling takes what was sent to the room from the front.
pub proof fn lemma_poll_read(room: RoomView)
    requires
        room.clients.dom().finite(),
    ensures
        match room.poll_read().1 {
            None => room.reads() == Seq::<MessageView>::empty(),
            Some(msg) => room.reads() == seq![msg] + room.poll_read().0.reads(),
        },
        room.poll_read().0.clients.dom() == room.clients.dom(),
{
    let m = reads_of(room.clients);
    let ids = room.client_ids();
    let p = has_reads(room.clients);
    let q = ord_map::has_some::<String, MessageView>(m);
    assert(m.dom() =~= room.clients.dom());
    ord_map::lemma_in_order::<String>(m.dom());
    assert forall|i: int| 0 <= i < ids.len() implies p(#[trigger] ids[i]) == q(ids[i]) by {
        assert(ids.contains(ids[i]));
        assert(m.dom().contains(ids[i]));
    }
    seqs::lemma_filter_same(ids, p, q);
    if ids.filter(p).len() == 0 {
        ord_map::lemma_concat_none::<String, MessageView>(m);
    } else {
        ord_map::lemma_concat_first::<String, MessageView>(m);
        let k = ids.filter(p)[0];
        assert(room.clients.contains_key(k));
        assert(reads_of(room.poll_read().0.clients) =~= m.insert(k, m[k].skip(1)));
        assert(room.poll_read().0.clients.dom() =~= room.clients.dom());
    }
}

/// Polling takes what is to be written from the front.
pub proof fn lemma_poll_write(room: RoomView)
    requires
        room.clients.dom().finite(),
    ensures
        match room.poll_write().1 {
            None => room.writes() == Seq::<MessageView>::empty() && room.without_writes() == room,
            Some(msg) => room.writes() == seq![msg] + room.poll_write().0.writes(),
        },
        room.poll_write().0.without_writes() == room.without_writes(),
        room.poll_write().0.clients.dom() == room.clients.dom(),
{
    let m = writes_of(room.clients);
    let ids = room.client_ids();
    let p = has_writes(room.clients);
    let q = ord_map::has_some::<String, MessageView>(m);
    assert(m.dom() =~= room.clients.dom());
    ord_map::lemma_in_order::<String>(m.dom());
    assert forall|i: int| 0 <= i < ids.len() implies p(#[trigger] ids[i]) == q(ids[i]) by {
        assert(ids.contains(ids[i]));
        assert(m.dom().contains(ids[i]));
    }
    seqs::lemma_filter_same(ids, p, q);
    if ids.filter(p).len() == 0 {
        ord_map::lemma_concat_none::<String, MessageView>(m);
        assert forall|c: Text| #[trigger]
            room.clients.dom().contains(c) implies room.without_writes().clients[c]
            == room.clients[c] by {
            assert(m.contains_key(c));
            assert(room.clients[c].writes =~= Seq::empty());
        }
        assert(room.without_writes().clients =~= room.clients);
    } else {
        ord_map::lemma_concat_first::<String, MessageView>(m);
        let k = ids.filter(p)[0];
        assert(room.clients.contains_key(k));
        assert(writes_of(room.poll_write().0.clients) =~= m.insert(k, m[k].skip(1)));
        assert(room.poll_write().0.clients.dom() =~= room.clients.dom());
        assert(room.poll_write().0.without_writes().clients =~= room.without_writes().clients);
    }
}

/// Relaying a message leaves what was sent to the room as it is.
pub proof fn lemma_send_keeps_reads(room: RoomView, now: Instant, source_id: Text, msg: Text)
    requires
        room.clients.dom().finite(),
    ensures
        room.send(now, source_id, msg).0.reads() == room.reads(),
        room.send(now, source_id, msg).0.clients.dom().finite(),
{
    let joined = room.joined(now, source_id);
    let m = reads_of(room.clients);
    assert(m.dom() =~= room.clients.dom());
    assert(joined.reads() == room.reads()) by {
        if !room.has(source_id) {
            ord_map::lemma_concat_insert_empty::<String, MessageView>(m, source_id);
            assert(reads_of(joined.clients) =~= m.insert(source_id, Seq::empty()));
        }
    }
    let sent = room.send(now, source_id, msg).0;
    if room.can_hold(source_id) {
        lemma_others(joined, source_id);
        assert(reads_of(sent.clients) =~= reads_of(joined.clients));
    }
}

} // verus!
