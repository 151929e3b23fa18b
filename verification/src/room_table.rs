//! The V1 rooms.

use crate::client::ClientId;
use crate::messages::{Message, MessageView};
use crate::ord_map;
use crate::ord_map::OrdMap;
use crate::room;
use crate::room::{Room, RoomId, RoomView};
use crate::seqs;
use crate::seqs::Text;
use crate::time;
use crate::time::{Duration, Instant};
use vstd::prelude::*;

pub mod laws;

verus! {

broadcast use {crate::seqs::group_views, crate::ord_map::group_maps};

/// A map of signaling rooms. It is driven through exclusive `&mut self` access,
/// so synchronization belongs to the caller.
pub struct RoomTable {
    rooms: OrdMap<RoomId, Room>,
    register_timeout: Duration,
}

#[verifier::ext_equal]
pub struct TableView {
    pub rooms: Map<Text, RoomView>,
    pub register_timeout: Duration,
}

impl View for RoomTable {
    type V = TableView;

    closed spec fn view(&self) -> TableView {
        TableView { rooms: self.rooms@, register_timeout: self.register_timeout }
    }
}

/// Which rooms hold a message that a client has sent.
pub open spec fn has_reads(rooms: Map<Text, RoomView>) -> spec_fn(Text) -> bool {
    |r: Text| rooms[r].poll_read().1 is Some
}

/// Which rooms hold a message for a client.
pub open spec fn has_writes(rooms: Map<Text, RoomView>) -> spec_fn(Text) -> bool {
    |r: Text| rooms[r].poll_write().1 is Some
}

/// How many clients each room has.
pub open spec fn client_counts(rooms: Map<Text, RoomView>) -> spec_fn(Text) -> nat {
    |r: Text| rooms[r].clients.dom().len()
}

/// How many clients of each room have a connection.
pub open spec fn connected_counts(rooms: Map<Text, RoomView>) -> spec_fn(Text) -> nat {
    |r: Text| rooms[r].connected().len()
}

impl TableView {
    pub open spec fn initial(register_timeout: Duration) -> TableView {
        TableView { rooms: Map::empty(), register_timeout }
    }

    pub open spec fn room_ids(self) -> Seq<Text> {
        ord_map::in_order::<String>(self.rooms.dom())
    }

    /// The room, or a new one where it does not exist.
    pub open spec fn room(self, room_id: Text) -> RoomView {
        if self.rooms.contains_key(room_id) {
            self.rooms[room_id]
        } else {
            RoomView::initial(room_id, self.register_timeout)
        }
    }

    pub open spec fn with_room(self, room_id: Text, room: RoomView) -> TableView {
        TableView { rooms: self.rooms.insert(room_id, room), ..self }
    }

    /// The table with the room in it, or without it where nobody is left.
    pub open spec fn with_room_unless_empty(self, room_id: Text, room: RoomView) -> TableView {
        if room.is_empty() {
            TableView { rooms: self.rooms.remove(room_id), ..self }
        } else {
            self.with_room(room_id, room)
        }
    }

    pub open spec fn without_client(self, room_id: Text, client_id: Text) -> TableView {
        if self.rooms.contains_key(room_id) {
            self.with_room_unless_empty(room_id, self.rooms[room_id].without(client_id))
        } else {
            self
        }
    }

    pub open spec fn send(self, now: Instant, room_id: Text, source_id: Text, msg: Text) -> (
        TableView,
        Result<(), Text>,
    ) {
        let (room, result) = self.room(room_id).send(now, source_id, msg);
        (self.with_room(room_id, room), result)
    }

    pub open spec fn join(self, now: Instant, room_id: Text, client_id: Text, is_loopback: bool) -> (
        TableView,
        Result<(bool, Seq<Text>), Text>,
    ) {
        let (room, result) = self.room(room_id).add_client(now, client_id, is_loopback);
        (self.with_room(room_id, room), result)
    }

    pub open spec fn register(self, now: Instant, room_id: Text, client_id: Text) -> (
        TableView,
        Result<(), Text>,
    ) {
        let (room, result) = self.room(room_id).register(now, client_id);
        (self.with_room(room_id, room), result)
    }

    pub open spec fn deregistered(self, now: Instant, room_id: Text, client_id: Text) -> TableView {
        if self.rooms.contains_key(room_id) {
            self.with_room(room_id, self.rooms[room_id].deregistered(now, client_id))
        } else {
            self
        }
    }

    pub open spec fn without_unregistered(self, room_id: Text, client_id: Text) -> TableView {
        if self.rooms.contains_key(room_id) && self.rooms[room_id].has(client_id)
            && !self.rooms[room_id].is_connected(client_id) {
            self.without_client(room_id, client_id)
        } else {
            self
        }
    }

    pub open spec fn occupancy(self, room_id: Text) -> nat {
        if self.rooms.contains_key(room_id) {
            self.rooms[room_id].clients.dom().len()
        } else {
            0
        }
    }

    /// How many clients all rooms have.
    pub open spec fn client_count(self) -> nat {
        seqs::sum(self.room_ids().map_values(client_counts(self.rooms)))
    }

    /// How many clients have a connection.
    pub open spec fn ws_count(self) -> nat {
        seqs::sum(self.room_ids().map_values(connected_counts(self.rooms)))
    }

    pub open spec fn after_read(self, msg: MessageView) -> TableView {
        if self.rooms.contains_key(msg.roomid) {
            self.with_room(msg.roomid, self.rooms[msg.roomid].after_read(msg))
        } else {
            self
        }
    }

    pub open spec fn after_write(self, msg: MessageView) -> TableView {
        if self.rooms.contains_key(msg.roomid) {
            self.with_room(msg.roomid, self.rooms[msg.roomid].after_write(msg))
        } else {
            self
        }
    }

    /// The next message that a client of the first room with one has sent.
    pub open spec fn poll_read(self) -> (TableView, Option<MessageView>) {
        let waiting = self.room_ids().filter(has_reads(self.rooms));
        if waiting.len() == 0 {
            (self, None)
        } else {
            let (room, msg) = self.rooms[waiting[0]].poll_read();
            (self.with_room(waiting[0], room), msg)
        }
    }

    /// The next message for a client of the first room that has one.
    pub open spec fn poll_write(self) -> (TableView, Option<MessageView>) {
        let waiting = self.room_ids().filter(has_writes(self.rooms));
        if waiting.len() == 0 {
            (self, None)
        } else {
            let (room, msg) = self.rooms[waiting[0]].poll_write();
            (self.with_room(waiting[0], room), msg)
        }
    }

    /// At most `n` of the messages that clients have sent were relayed in turn, up
    /// to the first that could not be.
    pub open spec fn relay_reads(self, now: Instant, n: nat) -> (TableView, Result<(), Text>)
        decreases n,
    {
        let (t, polled) = self.poll_read();
        match polled {
            Some(m) if n > 0 => {
                let (u, result) = t.send(now, m.roomid, m.clientid, m.msg);
                match result {
                    Ok(_) => u.relay_reads(now, (n - 1) as nat),
                    Err(e) => (u, Err(e)),
                }
            },
            _ => (self, Ok(())),
        }
    }

    /// The rooms without the clients that did not register in time, as far as
    /// anybody is left in them.
    pub open spec fn handle_timeout(self, now: Instant) -> TableView {
        TableView {
            rooms: Map::new(
                |r: Text|
                    self.rooms.contains_key(r) && !self.rooms[r].handle_timeout(now).is_empty(),
                |r: Text| self.rooms[r].handle_timeout(now),
            ),
            ..self
        }
    }

    pub open spec fn is_deadline(self, room_id: Text, t: Instant) -> bool {
        self.rooms.contains_key(room_id) && exists|c: Text| self.rooms[room_id].is_deadline(c, t)
    }
}

impl RoomTable {
    pub fn new(register_timeout: Duration) -> (r: RoomTable)
        ensures
            r@ == TableView::initial(register_timeout),
    {
        RoomTable { rooms: OrdMap::new(), register_timeout }
    }

    /// Returns the room specified by `id`, creating it when it does not exist.
    pub fn room(&mut self, id: &RoomId) -> (r: &mut Room)
        ensures
            r@ == old(self)@.room(id@),
            final(self)@ == old(self)@.with_room(id@, (*final(r))@),
    {
        let ghost before = self@;
        if !self.rooms.contains_key(id) {
            self.rooms.insert(id.clone(), Room::new(id.clone(), self.register_timeout));
        }
        let place: usize = self.rooms.place_of(id);
        let r = self.rooms.value_at_mut(place);
        assert(before.rooms.insert(id@, before.room(id@)).insert(id@, (*final(r))@)
            =~= before.rooms.insert(id@, (*final(r))@));
        r
    }

    /// Removes a client and removes its room as well when it becomes empty.
    pub fn remove(&mut self, room_id: &RoomId, client_id: &ClientId)
        ensures
            final(self)@ == old(self)@.without_client(room_id@, client_id@),
    {
        let remove_room = match self.rooms.get_mut(room_id) {
            Some(room) => {
                room.remove(client_id);
                room.empty()
            },
            None => false,
        };
        if remove_room {
            self.rooms.remove(room_id);
            assert(self@ =~= old(self)@.without_client(room_id@, client_id@));
        }
    }

    /// Forwards a message to a room, creating that room when necessary.
    pub fn send(
        &mut self,
        now: Instant,
        room_id: &RoomId,
        source_id: &ClientId,
        msg: String,
    ) -> (r: Result<(), String>)
        ensures
            (final(self)@, seqs::result_view(r)) == old(self)@.send(
                now,
                room_id@,
                source_id@,
                msg@,
            ),
    {
        self.room(room_id).send(now, source_id, msg)
    }

    /// Stores or relays an outbound client message: it is queued while the peer is
    /// absent, and relayed when the peer is present.
    pub fn save_or_send(
        &mut self,
        now: Instant,
        room_id: &RoomId,
        source_id: &ClientId,
        msg: String,
    ) -> (r: Result<(), String>)
        ensures
            (final(self)@, seqs::result_view(r)) == old(self)@.send(
                now,
                room_id@,
                source_id@,
                msg@,
            ),
    {
        self.send(now, room_id, source_id, msg)
    }

    /// Allocates a client for a join request and returns its initiator flag plus
    /// messages queued by the other client.
    pub fn join(
        &mut self,
        now: Instant,
        room_id: &RoomId,
        client_id: &ClientId,
        is_loopback: bool,
    ) -> (r: Result<(bool, Vec<String>), String>)
        ensures
            (final(self)@, room::join_result(r)) == old(self)@.join(
                now,
                room_id@,
                client_id@,
                is_loopback,
            ),
    {
        self.room(room_id).add_client(now, client_id, is_loopback)
    }

    /// Removes a client for a browser leave or an internal removal.
    pub fn leave(&mut self, room_id: &RoomId, client_id: &ClientId)
        ensures
            final(self)@ == old(self)@.without_client(room_id@, client_id@),
    {
        self.remove(room_id, client_id);
    }

    /// Returns the number of clients in a room, or zero when the room is absent.
    pub fn occupancy(&self, room_id: &RoomId) -> (r: usize)
        ensures
            r == self@.occupancy(room_id@),
    {
        match self.rooms.get(room_id) {
            Some(room) => room.occupancy(),
            None => 0,
        }
    }

    /// Registers a client's connection, creating the room or client if needed.
    pub fn register(&mut self, now: Instant, room_id: &RoomId, client_id: &ClientId) -> (r: Result<
        (),
        String,
    >)
        ensures
            (final(self)@, seqs::result_view(r)) == old(self)@.register(now, room_id@, client_id@),
    {
        self.room(room_id).register(now, client_id)
    }

    /// Clears a client's connection registration and arms its reconnect timeout. The
    /// client remains in the room so it can reconnect while roaming networks.
    pub fn deregister(&mut self, now: Instant, room_id: &RoomId, client_id: &ClientId)
        ensures
            final(self)@ == old(self)@.deregistered(now, room_id@, client_id@),
    {
        if let Some(room) = self.rooms.get_mut(room_id) {
            room.deregister(now, client_id);
        }
    }

    /// Removes a client only if it is still unregistered, then reaps an empty room.
    ///
    /// The client's deadline identifies the client incarnation: registration cancels
    /// that deadline, so a stale timeout cannot remove a client that has re-registered.
    pub fn remove_if_unregistered(&mut self, room_id: &RoomId, client_id: &ClientId)
        ensures
            final(self)@ == old(self)@.without_unregistered(room_id@, client_id@),
    {
        let remove_room = match self.rooms.get_mut(room_id) {
            Some(room) => room.remove_if_unregistered(client_id) && room.empty(),
            None => false,
        };
        if remove_room {
            self.rooms.remove(room_id);
            assert(self@ =~= old(self)@.without_unregistered(room_id@, client_id@));
        }
    }

    /// The number of currently registered client connections, as far as that can be
    /// counted.
    pub fn ws_count(&self) -> (r: usize)
        ensures
            r == seqs::countable(self@.ws_count()),
    {
        let ghost ids = self@.room_ids();
        let ghost g = connected_counts(self@.rooms);
        proof {
            ord_map::lemma_in_order::<String>(self@.rooms.dom());
            assert(ids.take(0).map_values(g) =~= Seq::empty());
        }
        let mut r: usize = 0;
        let mut i: usize = 0;
        while i < self.rooms.len()
            invariant
                i <= self@.rooms.dom().len(),
                ids == self@.room_ids(),
                ids.len() == self@.rooms.dom().len(),
                g == connected_counts(self@.rooms),
                r == seqs::countable(seqs::sum(ids.take(i as int).map_values(g))),
            decreases self@.rooms.dom().len() - i,
        {
            assert(ids.take(i + 1).map_values(g).drop_last() =~= ids.take(i as int).map_values(g));
            r = r.saturating_add(self.rooms.value_at(i).ws_count());
            i = i + 1;
        }
        assert(ids.take(i as int) =~= ids);
        r
    }

    pub fn room_count(&self) -> (r: usize)
        ensures
            r == self@.rooms.dom().len(),
    {
        self.rooms.len()
    }

    /// The number of clients in all rooms, as far as that can be counted.
    pub fn client_count(&self) -> (r: usize)
        ensures
            r == seqs::countable(self@.client_count()),
    {
        let ghost ids = self@.room_ids();
        let ghost g = client_counts(self@.rooms);
        proof {
            ord_map::lemma_in_order::<String>(self@.rooms.dom());
            assert(ids.take(0).map_values(g) =~= Seq::empty());
        }
        let mut r: usize = 0;
        let mut i: usize = 0;
        while i < self.rooms.len()
            invariant
                i <= self@.rooms.dom().len(),
                ids == self@.room_ids(),
                ids.len() == self@.rooms.dom().len(),
                g == client_counts(self@.rooms),
                r == seqs::countable(seqs::sum(ids.take(i as int).map_values(g))),
            decreases self@.rooms.dom().len() - i,
        {
            assert(ids.take(i + 1).map_values(g).drop_last() =~= ids.take(i as int).map_values(g));
            r = r.saturating_add(self.rooms.value_at(i).occupancy());
            i = i + 1;
        }
        assert(ids.take(i as int) =~= ids);
        r
    }

    /// Delivers a message read from a client's connection to its room. Messages for
    /// rooms that have already been removed are dropped.
    pub fn handle_read(&mut self, msg: Message) -> (r: Result<(), String>)
        ensures
            r is Ok,
            final(self)@ == old(self)@.after_read(msg@),
    {
        if let Some(room) = self.rooms.get_mut(&msg.roomid) {
            return room.handle_read(msg);
        }
        Ok(())
    }

    /// Drains the next client message from any room.
    pub fn poll_read(&mut self) -> (r: Option<Message>)
        ensures
            (final(self)@, seqs::opt_view(r)) == old(self)@.poll_read(),
    {
        let keys = self.rooms.keys();
        let ghost ids = seqs::views(keys@);
        let ghost p = has_reads(self@.rooms);
        proof {
            ord_map::lemma_in_order::<String>(self@.rooms.dom());
            seqs::lemma_filter_ends(ids, p);
        }
        let mut i: usize = 0;
        while i < keys.len()
            invariant
                i <= keys@.len(),
                ids == seqs::views(keys@),
                self@ == old(self)@,
                ids == self@.room_ids(),
                p == has_reads(self@.rooms),
                forall|c: Text| #[trigger] self@.rooms.dom().contains(c) <==> ids.contains(c),
                ids.take(i as int).filter(p).len() == 0,
            decreases keys@.len() - i,
        {
            assert(ids.contains(ids[i as int]));
            assert(self@.rooms.dom().contains(ids[i as int]));
            proof {
                seqs::lemma_filter_take(ids, p, i as int);
            }
            if let Some(room) = self.rooms.get_mut(&keys[i]) {
                if let Some(msg) = room.poll_read() {
                    proof {
                        seqs::lemma_filter_first(ids, p, i as int);
                    }
                    return Some(msg);
                }
            }
            i = i + 1;
        }
        None
    }

    /// Relays all messages that clients have sent, in turn, up to the first that
    /// cannot be.
    pub fn relay_reads(&mut self, now: Instant) -> (r: Result<(), String>)
        ensures
            (final(self)@, seqs::result_view(r)) == old(self)@.relay_reads(
                now,
                old(self)@.reads().len(),
            ),
    {
        let ghost start = self@;
        let ghost mut left: nat = self@.reads().len();
        loop
            invariant
                left == self@.reads().len(),
                start == old(self)@,
                self@.relay_reads(now, left) == start.relay_reads(now, start.reads().len()),
            decreases left,
        {
            proof {
                lemma_finite(*self);
                lemma_poll_read(self@);
            }
            let ghost before = self@;
            match self.poll_read() {
                None => {
                    return Ok(());
                },
                Some(message) => {
                    proof {
                        lemma_send_keeps_reads(
                            self@,
                            now,
                            message.roomid@,
                            message.clientid@,
                            message.msg@,
                        );
                        assert(before.reads()[0] == message@);
                        left = (left - 1) as nat;
                    }
                    match self.send(now, &message.roomid, &message.clientid, message.msg) {
                        Ok(_) => {},
                        Err(e) => {
                            return Err(e);
                        },
                    }
                },
            }
        }
    }

    /// Delivers an outbound server message to its room and client. Messages for rooms
    /// that have already been removed are dropped.
    pub fn handle_write(&mut self, msg: Message) -> (r: Result<(), String>)
        ensures
            r is Ok,
            final(self)@ == old(self)@.after_write(msg@),
    {
        if let Some(room) = self.rooms.get_mut(&msg.roomid) {
            return room.handle_write(msg);
        }
        Ok(())
    }

    /// Drains the next client-bound message from any room.
    pub fn poll_write(&mut self) -> (r: Option<Message>)
        ensures
            (final(self)@, seqs::opt_view(r)) == old(self)@.poll_write(),
    {
        let keys = self.rooms.keys();
        let ghost ids = seqs::views(keys@);
        let ghost p = has_writes(self@.rooms);
        proof {
            ord_map::lemma_in_order::<String>(self@.rooms.dom());
            seqs::lemma_filter_ends(ids, p);
        }
        let mut i: usize = 0;
        while i < keys.len()
            invariant
                i <= keys@.len(),
                ids == seqs::views(keys@),
                self@ == old(self)@,
                ids == self@.room_ids(),
                p == has_writes(self@.rooms),
                forall|c: Text| #[trigger] self@.rooms.dom().contains(c) <==> ids.contains(c),
                ids.take(i as int).filter(p).len() == 0,
            decreases keys@.len() - i,
        {
            assert(ids.contains(ids[i as int]));
            assert(self@.rooms.dom().contains(ids[i as int]));
            proof {
                seqs::lemma_filter_take(ids, p, i as int);
            }
            if let Some(room) = self.rooms.get_mut(&keys[i]) {
                if let Some(msg) = room.poll_write() {
                    proof {
                        seqs::lemma_filter_first(ids, p, i as int);
                    }
                    return Some(msg);
                }
            }
            i = i + 1;
        }
        None
    }

    /// Drives every room's client registration deadlines and reaps rooms whose last
    /// client expired.
    pub fn handle_timeout(&mut self, now: Instant) -> (r: Result<(), String>)
        ensures
            r is Ok,
            final(self)@ == old(self)@.handle_timeout(now),
    {
        let keys = self.rooms.keys();
        let ghost ids = seqs::views(keys@);
        let ghost start = self@;
        proof {
            ord_map::lemma_in_order::<String>(start.rooms.dom());
            ord_map::lemma_ascending_no_duplicates::<String>(ids);
        }
        let mut i: usize = 0;
        while i < keys.len()
            invariant
                i <= keys@.len(),
                ids == seqs::views(keys@),
                ids.no_duplicates(),
                forall|c: Text| #[trigger] start.rooms.dom().contains(c) <==> ids.contains(c),
                self@ == (TableView { rooms: self@.rooms, ..start }),
                forall|c: Text|
                    self@.rooms.contains_key(c) ==> #[trigger] start.rooms.contains_key(c),
                forall|j: int|
                    0 <= j < i ==> ({
                        let swept = start.rooms[#[trigger] ids[j]].handle_timeout(now);
                        &&& self@.rooms.contains_key(ids[j]) <==> !swept.is_empty()
                        &&& !swept.is_empty() ==> self@.rooms[ids[j]] == swept
                    }),
                forall|j: int|
                    i <= j < ids.len() ==> self@.rooms.contains_key(#[trigger] ids[j])
                        && self@.rooms[ids[j]] == start.rooms[ids[j]],
            decreases keys@.len() - i,
        {
            let ghost id = ids[i as int];
            let mut empty = false;
            assert(self@.rooms.contains_key(id));
            if let Some(room) = self.rooms.get_mut(&keys[i]) {
                let _ = room.handle_timeout(now);
                empty = room.empty();
            }
            if empty {
                self.rooms.remove(&keys[i]);
            }
            assert forall|j: int| 0 <= j < ids.len() && j != i implies #[trigger] ids[j] != id by {}
            i = i + 1;
        }
        assert(self@.rooms =~= start.handle_timeout(now).rooms) by {
            assert forall|c: Text| self@.rooms.contains_key(c)
                <==> start.handle_timeout(now).rooms.contains_key(c) by {
                assert(start.rooms.dom().contains(c) <==> ids.contains(c));
            }
            assert forall|c: Text| self@.rooms.contains_key(c) implies self@.rooms[c]
                == start.handle_timeout(now).rooms[c] by {
                assert(start.rooms.dom().contains(c) <==> ids.contains(c));
            }
        }
        Ok(())
    }

    /// Returns the earliest client registration deadline across all rooms.
    pub fn poll_timeout(&self) -> (r: Option<Instant>)
        ensures
            time::is_earliest(r, |t: Instant| exists|id: Text| self@.is_deadline(id, t)),
    {
        let ghost ids = self@.room_ids();
        proof {
            ord_map::lemma_in_order::<String>(self@.rooms.dom());
        }
        let mut r: Option<Instant> = None;
        let mut i: usize = 0;
        while i < self.rooms.len()
            invariant
                i <= self@.rooms.dom().len(),
                ids == self@.room_ids(),
                ids.len() == self@.rooms.dom().len(),
                forall|c: Text| #[trigger] self@.rooms.dom().contains(c) <==> ids.contains(c),
                time::is_earliest(
                    r,
                    |t: Instant|
                        exists|j: int| 0 <= j < i && self@.is_deadline(#[trigger] ids[j], t),
                ),
            decreases self@.rooms.dom().len() - i,
        {
            assert(ids.contains(ids[i as int]));
            assert(self@.rooms.dom().contains(ids[i as int]));
            let room = self.rooms.value_at(i);
            let next = room.poll_timeout();
            proof {
                let p = |t: Instant|
                    exists|j: int| 0 <= j < i && self@.is_deadline(#[trigger] ids[j], t);
                let q0 = |t: Instant| exists|c: Text| room@.is_deadline(c, t);
                let q = |t: Instant| self@.is_deadline(ids[i as int], t);
                time::lemma_earliest_same(next, q0, q);
                time::lemma_earliest_either(r, next, p, q);
                let s = |t: Instant|
                    exists|j: int| 0 <= j < i + 1 && self@.is_deadline(#[trigger] ids[j], t);
                assert forall|t: Instant| (#[trigger] p(t) || q(t)) <==> s(t) by {
                    if q(t) {
                        assert(self@.is_deadline(ids[i as int], t));
                    }
                }
                time::lemma_earliest_same(
                    time::earliest_of(r, next),
                    |t: Instant| p(t) || q(t),
                    s,
                );
            }
            r = time::earlier(r, next);
            i = i + 1;
        }
        proof {
            let p = |t: Instant|
                exists|j: int| 0 <= j < i && self@.is_deadline(#[trigger] ids[j], t);
            let q = |t: Instant| exists|id: Text| self@.is_deadline(id, t);
            assert forall|t: Instant| #[trigger] p(t) <==> q(t) by {
                if q(t) {
                    let id = choose|id: Text| self@.is_deadline(id, t);
                    assert(self@.rooms.dom().contains(id));
                    assert(ids.contains(id));
                    let j = choose|j: int| 0 <= j < ids.len() && ids[j] == id;
                    assert(self@.is_deadline(ids[j], t));
                }
            }
            time::lemma_earliest_same(r, p, q);
        }
        r
    }

    pub fn close(&mut self) -> (r: Result<(), String>)
        ensures
            r is Ok,
            final(self)@ == TableView::initial(old(self)@.register_timeout),
    {
        self.rooms.clear();
        Ok(())
    }
}

/// What was sent to each room.
pub open spec fn reads_of(rooms: Map<Text, RoomView>) -> Map<Text, Seq<MessageView>> {
    rooms.map_values(|r: RoomView| r.reads())
}

/// What is to be written to the clients of each room.
pub open spec fn writes_of(rooms: Map<Text, RoomView>) -> Map<Text, Seq<MessageView>> {
    rooms.map_values(|r: RoomView| r.writes())
}

impl TableView {
    /// Every room has finitely many clients, and there are finitely many rooms.
    pub open spec fn finite(self) -> bool {
        &&& self.rooms.dom().finite()
        &&& forall|r: Text| #[trigger]
            self.rooms.contains_key(r) ==> self.rooms[r].clients.dom().finite()
    }

    /// All messages that clients have sent, in the order in which they are polled.
    pub open spec fn reads(self) -> Seq<MessageView> {
        ord_map::concat_in_order::<String, MessageView>(reads_of(self.rooms))
    }

    /// All messages for clients, in the order in which they are polled.
    pub open spec fn writes(self) -> Seq<MessageView> {
        ord_map::concat_in_order::<String, MessageView>(writes_of(self.rooms))
    }

    /// The table once all messages for clients have been taken.
    pub open spec fn without_writes(self) -> TableView {
        TableView { rooms: self.rooms.map_values(|r: RoomView| r.without_writes()), ..self }
    }
}

/// A table has finitely many rooms with finitely many clients each.
pub broadcast proof fn lemma_finite(t: RoomTable)
    ensures
        #[trigger] t@.finite(),
{
    assert forall|r: Text| #[trigger] t@.rooms.contains_key(r) implies t@.rooms[r].clients.dom().finite() by {
        t.rooms.lemma_value_view(r);
        let room = choose|room: Room| room@ == t@.rooms[r];
        room::lemma_finite(room);
    }
}

/// Polling takes what was sent from the front.
pub proof fn lemma_poll_read(t: TableView)
    requires
        t.finite(),
    ensures
        match t.poll_read().1 {
            None => t.reads() == Seq::<MessageView>::empty(),
            Some(msg) => t.reads() == seq![msg] + t.poll_read().0.reads(),
        },
        t.poll_read().0.finite(),
{
    let m = reads_of(t.rooms);
    let ids = t.room_ids();
    let p = has_reads(t.rooms);
    let q = ord_map::has_some::<String, MessageView>(m);
    assert(m.dom() =~= t.rooms.dom());
    ord_map::lemma_in_order::<String>(m.dom());
    assert forall|i: int| 0 <= i < ids.len() implies p(#[trigger] ids[i]) == q(ids[i]) by {
        assert(ids.contains(ids[i]));
        assert(m.dom().contains(ids[i]));
        assert(t.rooms.contains_key(ids[i]));
        room::lemma_poll_read(t.rooms[ids[i]]);
    }
    seqs::lemma_filter_same(ids, p, q);
    if ids.filter(p).len() == 0 {
        ord_map::lemma_concat_none::<String, MessageView>(m);
    } else {
        ord_map::lemma_concat_first::<String, MessageView>(m);
        let k = ids.filter(p)[0];
        assert(t.rooms.contains_key(k));
        room::lemma_poll_read(t.rooms[k]);
        assert(t.rooms[k].poll_read().0.reads() =~= m[k].skip(1));
        assert(reads_of(t.poll_read().0.rooms) =~= m.insert(k, m[k].skip(1)));
    }
}

/// Polling takes what is to be written from the front.
pub proof fn lemma_poll_write(t: TableView)
    requires
        t.finite(),
    ensures
        match t.poll_write().1 {
            None => t.writes() == Seq::<MessageView>::empty() && t.without_writes() == t,
            Some(msg) => t.writes() == seq![msg] + t.poll_write().0.writes(),
        },
        t.poll_write().0.without_writes() == t.without_writes(),
        t.poll_write().0.finite(),
{
    let m = writes_of(t.rooms);
    let ids = t.room_ids();
    let p = has_writes(t.rooms);
    let q = ord_map::has_some::<String, MessageView>(m);
    assert(m.dom() =~= t.rooms.dom());
    ord_map::lemma_in_order::<String>(m.dom());
    assert forall|i: int| 0 <= i < ids.len() implies p(#[trigger] ids[i]) == q(ids[i]) by {
        assert(ids.contains(ids[i]));
        assert(m.dom().contains(ids[i]));
        assert(t.rooms.contains_key(ids[i]));
        room::lemma_poll_write(t.rooms[ids[i]]);
    }
    seqs::lemma_filter_same(ids, p, q);
    if ids.filter(p).len() == 0 {
        ord_map::lemma_concat_none::<String, MessageView>(m);
        assert forall|r: Text| t.rooms.contains_key(r) implies t.without_writes().rooms[r]
            == t.rooms[r] by {
            assert(m.contains_key(r));
            room::lemma_poll_write(t.rooms[r]);
        }
        assert(t.without_writes().rooms =~= t.rooms);
    } else {
        ord_map::lemma_concat_first::<String, MessageView>(m);
        let k = ids.filter(p)[0];
        assert(t.rooms.contains_key(k));
        room::lemma_poll_write(t.rooms[k]);
        assert(t.rooms[k].poll_write().0.writes() =~= m[k].skip(1));
        assert(writes_of(t.poll_write().0.rooms) =~= m.insert(k, m[k].skip(1)));
        assert(t.poll_write().0.without_writes().rooms =~= t.without_writes().rooms);
    }
}

/// Relaying a message leaves what was sent as it is.
pub proof fn lemma_send_keeps_reads(
    t: TableView,
    now: Instant,
    room_id: Text,
    source_id: Text,
    msg: Text,
)
    requires
        t.finite(),
    ensures
        t.send(now, room_id, source_id, msg).0.reads() == t.reads(),
        t.send(now, room_id, source_id, msg).0.finite(),
{
    let m = reads_of(t.rooms);
    let sent = t.send(now, room_id, source_id, msg).0;
    assert(m.dom() =~= t.rooms.dom());
    room::lemma_send_keeps_reads(t.room(room_id), now, source_id, msg);
    if t.rooms.contains_key(room_id) {
        assert(reads_of(sent.rooms) =~= m);
    } else {
        let fresh = RoomView::initial(room_id, t.register_timeout);
        room::lemma_poll_read(fresh);
        assert(fresh.client_ids().len() == 0) by {
            ord_map::lemma_in_order::<String>(fresh.clients.dom());
        }
        assert(fresh.reads() == Seq::<MessageView>::empty()) by {
            reveal(Seq::filter);
        }
        ord_map::lemma_concat_insert_empty::<String, MessageView>(m, room_id);
        assert(reads_of(sent.rooms) =~= m.insert(room_id, Seq::empty()));
    }
}

} // verus!
