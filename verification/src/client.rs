//! One participant of a V1 room.

use crate::messages::{Message, MessageView};
use crate::seqs;
use crate::seqs::Text;
use crate::time::Instant;
use std::collections::VecDeque;
use vstd::prelude::*;

verus! {

broadcast use crate::seqs::group_views;

pub const MAX_QUEUED_MSG_COUNT: usize = 1024;

pub type ClientId = String;

/// Events a client surfaces up to its room.
#[derive(Debug, Clone, Copy, PartialEq, Eq, Structural)]
pub enum ClientEvent {
    /// The register-timeout elapsed while the client was still unregistered; the
    /// room should reap it.
    Expired,
}

/// One participant of a room.
///
/// The read plane carries a message received on this client's socket up to the
/// room (to route to the peer); the write plane drains messages the room delivered
/// here back down to the socket; the timeout plane drives the register-timeout.
pub struct Client {
    id: ClientId,
    room_id: String,
    /// Whether a connection is currently registered.
    registered: bool,
    /// Messages this client sent that are queued until the peer registers.
    msgs: VecDeque<String>,
    /// Messages received on this client's socket, awaiting `poll_read` by the room.
    reads: VecDeque<Message>,
    /// Server-to-client messages ready for the driver to write to this client's
    /// socket. Each entry is a raw relay payload, framed as a `{ "msg": .. }` server
    /// frame on the wire.
    writes: VecDeque<Message>,
    /// Events awaiting `poll_event` by the room.
    events: VecDeque<ClientEvent>,
    /// The register-timeout deadline: the room reaps the client if it is still
    /// unregistered at this instant. `None` once registered or when no timeout is
    /// pending.
    timeout: Option<Instant>,
    /// True for the first client to join a room (the WebRTC caller).
    is_initiator: bool,
}

#[verifier::ext_equal]
pub struct ClientView {
    pub id: Text,
    pub room_id: Text,
    pub registered: bool,
    pub msgs: Seq<Text>,
    pub reads: Seq<MessageView>,
    pub writes: Seq<MessageView>,
    pub events: Seq<ClientEvent>,
    pub timeout: Option<Instant>,
    pub is_initiator: bool,
}

impl View for Client {
    type V = ClientView;

    closed spec fn view(&self) -> ClientView {
        ClientView {
            id: self.id@,
            room_id: self.room_id@,
            registered: self.registered,
            msgs: seqs::views(self.msgs@),
            reads: seqs::views(self.reads@),
            writes: seqs::views(self.writes@),
            events: self.events@,
            timeout: self.timeout,
            is_initiator: self.is_initiator,
        }
    }
}

impl ClientView {
    pub open spec fn created(id: Text, room_id: Text, timeout: Option<Instant>) -> ClientView {
        ClientView {
            id,
            room_id,
            registered: false,
            msgs: Seq::empty(),
            reads: Seq::empty(),
            writes: Seq::empty(),
            events: Seq::empty(),
            timeout,
            is_initiator: false,
        }
    }

    pub open spec fn with_initiator(self, is_initiator: bool) -> ClientView {
        ClientView { is_initiator, ..self }
    }

    pub open spec fn with_timer(self, timeout: Option<Instant>) -> ClientView {
        ClientView { timeout, ..self }
    }

    pub open spec fn connected(self) -> ClientView {
        ClientView { registered: true, timeout: None, ..self }
    }

    pub open spec fn disconnected(self) -> ClientView {
        ClientView { registered: false, ..self }
    }

    pub open spec fn without_msgs(self) -> ClientView {
        ClientView { msgs: Seq::empty(), ..self }
    }

    pub open spec fn has_room_in_queue(self) -> bool {
        self.msgs.len() < MAX_QUEUED_MSG_COUNT
    }

    pub open spec fn with_queued(self, msg: Text) -> ClientView {
        ClientView { msgs: self.msgs.push(msg), ..self }
    }

    /// A message of this client as the other one gets it.
    pub open spec fn addressed(self, other: ClientView, msg: Text) -> MessageView {
        MessageView { roomid: self.room_id, clientid: other.id, msg }
    }

    pub open spec fn with_written(self, message: MessageView) -> ClientView {
        ClientView { writes: self.writes.push(message), ..self }
    }

    pub open spec fn with_read(self, message: MessageView) -> ClientView {
        ClientView { reads: self.reads.push(message), ..self }
    }

    /// The other client once everything that this one has queued went there.
    pub open spec fn flushed_to(self, other: ClientView) -> ClientView {
        ClientView {
            writes: other.writes + self.msgs.map_values(
                |msg: Text| self.addressed(other, msg),
            ),
            ..other
        }
    }

    /// Whether queued messages of this client can go to the other one.
    pub open spec fn can_flush_to(self, other: ClientView) -> bool {
        self.id != other.id && other.registered
    }

    /// Both clients after this one has sent a message to the other.
    pub open spec fn send(self, other: ClientView, msg: Text) -> (
        ClientView,
        ClientView,
        Result<(), Text>,
    ) {
        if self.id == other.id {
            (self, other, Err("Invalid client"@))
        } else if other.registered {
            (self, other.with_written(self.addressed(other, msg)), Ok(()))
        } else if self.has_room_in_queue() {
            (self.with_queued(msg), other, Ok(()))
        } else {
            (self, other, Err("Too many messages queued for the client"@))
        }
    }

    /// Whether the register-timeout has elapsed without a registration.
    pub open spec fn is_overdue(self, now: Instant) -> bool {
        &&& !self.registered
        &&& self.timeout matches Some(deadline)
        &&& deadline.due(now)
    }

    pub open spec fn ticked(self, now: Instant) -> ClientView {
        if self.is_overdue(now) {
            ClientView { events: self.events.push(ClientEvent::Expired), timeout: None, ..self }
        } else {
            self
        }
    }
}

/// `r` is the first element of `old`, and `new` is the rest.
pub open spec fn popped<A, B: View<V = A>>(r: Option<B>, old: Seq<A>, new: Seq<A>) -> bool {
    match r {
        Some(x) => old.len() > 0 && x@ == old[0] && new == old.skip(1),
        None => old.len() == 0 && new == old,
    }
}

impl Client {
    /// `timeout` is the register-timeout deadline.
    pub fn new(id: ClientId, room_id: String, timeout: Option<Instant>) -> (r: Client)
        ensures
            r@ == ClientView::created(id@, room_id@, timeout),
    {
        Client {
            id,
            room_id,
            registered: false,
            msgs: VecDeque::new(),
            reads: VecDeque::new(),
            writes: VecDeque::new(),
            events: VecDeque::new(),
            timeout,
            is_initiator: false,
        }
    }

    pub fn id(&self) -> (r: &ClientId)
        ensures
            r@ == self@.id,
    {
        &self.id
    }

    pub fn room_id(&self) -> (r: &String)
        ensures
            r@ == self@.room_id,
    {
        &self.room_id
    }

    pub fn is_initiator(&self) -> (r: bool)
        ensures
            r == self@.is_initiator,
    {
        self.is_initiator
    }

    pub fn set_initiator(&mut self, is_initiator: bool)
        ensures
            final(self)@ == old(self)@.with_initiator(is_initiator),
    {
        self.is_initiator = is_initiator;
    }

    /// Replaces the register-timeout deadline.
    pub fn set_timer(&mut self, timeout: Option<Instant>)
        ensures
            final(self)@ == old(self)@.with_timer(timeout),
    {
        self.timeout = timeout;
    }

    /// Binds a connection to the client if one is not already registered.
    pub fn register(&mut self) -> (r: Result<(), String>)
        ensures
            match r {
                Ok(_) => !old(self)@.registered && final(self)@ == old(self)@.connected(),
                Err(e) => old(self)@.registered && final(self)@ == old(self)@ && e@
                    == "Duplicated registration"@,
            },
    {
        if self.registered {
            return Err("Duplicated registration".to_string());
        }
        self.set_timer(None);
        self.registered = true;
        Ok(())
    }

    /// Drops the client's connection registration. The queued messages are kept so a
    /// client roaming between networks can reconnect.
    pub fn deregister(&mut self)
        ensures
            final(self)@ == old(self)@.disconnected(),
    {
        self.registered = false;
    }

    pub fn registered(&self) -> (r: bool)
        ensures
            r == self@.registered,
    {
        self.registered
    }

    /// Adds a message to this client's pending-flush queue.
    pub fn enqueue(&mut self, msg: String) -> (r: Result<(), String>)
        ensures
            match r {
                Ok(_) => old(self)@.has_room_in_queue() && final(self)@ == old(self)@.with_queued(
                    msg@,
                ),
                Err(e) => !old(self)@.has_room_in_queue() && final(self)@ == old(self)@ && e@
                    == "Too many messages queued for the client"@,
            },
    {
        if self.msgs.len() >= MAX_QUEUED_MSG_COUNT {
            return Err("Too many messages queued for the client".to_string());
        }
        self.msgs.push_back(msg);
        Ok(())
    }

    /// Drains and returns this client's pending-flush queue, so that a joiner can be
    /// handed the peer's queued offer and candidates.
    pub fn drain_msgs(&mut self) -> (r: Vec<String>)
        ensures
            seqs::views(r@) == old(self)@.msgs,
            final(self)@ == old(self)@.without_msgs(),
    {
        let ghost start = self@;
        let mut r: Vec<String> = Vec::new();
        assert(seqs::views(r@) + self@.msgs =~= start.msgs);
        while self.msgs.len() > 0
            invariant
                self@ == (ClientView { msgs: self@.msgs, ..start }),
                seqs::views(r@) + self@.msgs == start.msgs,
            decreases self@.msgs.len(),
        {
            let ghost before = seqs::views(r@) + self@.msgs;
            if let Some(msg) = self.msgs.pop_front() {
                r.push(msg);
            }
            assert(before =~= seqs::views(r@) + self@.msgs);
        }
        assert(self@.msgs =~= Seq::empty());
        assert(seqs::views(r@) + self@.msgs =~= seqs::views(r@));
        r
    }

    /// Flushes this client's queued messages to `other` (which must be registered).
    pub fn send_queued(&mut self, other: &mut Client) -> (r: Result<(), String>)
        ensures
            match r {
                Ok(_) => old(self)@.can_flush_to(old(other)@) && final(self)@
                    == old(self)@.without_msgs() && final(other)@ == old(self)@.flushed_to(
                    old(other)@,
                ),
                Err(e) => !old(self)@.can_flush_to(old(other)@) && final(self)@ == old(self)@
                    && final(other)@ == old(other)@ && e@ == "Invalid client"@,
            },
    {
        if self.id == other.id || !other.registered {
            return Err("Invalid client".to_string());
        }
        let ghost me = self@;
        let ghost you = other@;
        let ghost f = |msg: Text| me.addressed(you, msg);
        let msgs = self.drain_msgs();
        let ghost texts = seqs::views(msgs@);
        let mut i: usize = 0;
        assert(texts.take(0).map_values(f) =~= Seq::empty());
        assert(you.writes + texts.take(0).map_values(f) =~= you.writes);
        while i < msgs.len()
            invariant
                i <= msgs@.len(),
                texts == seqs::views(msgs@),
                f == (|msg: Text| me.addressed(you, msg)),
                self@ == me.without_msgs(),
                other@ == (ClientView {
                    writes: you.writes + texts.take(i as int).map_values(f),
                    ..you
                }),
            decreases msgs@.len() - i,
        {
            let message = Message {
                roomid: self.room_id.clone(),
                clientid: other.id.clone(),
                msg: msgs[i].clone(),
            };
            other.writes.push_back(message);
            assert(texts.take(i + 1).map_values(f) =~= texts.take(i as int).map_values(f).push(
                f(texts[i as int]),
            ));
            i = i + 1;
            assert(other@.writes =~= you.writes + texts.take(i as int).map_values(f));
        }
        assert(texts.take(i as int) =~= texts);
        Ok(())
    }

    /// Sends `msg` to `other` if it has registered, otherwise queues it on this
    /// client until `other` registers.
    pub fn send(&mut self, other: &mut Client, msg: String) -> (r: Result<(), String>)
        ensures
            final(self)@ == old(self)@.send(old(other)@, msg@).0,
            final(other)@ == old(self)@.send(old(other)@, msg@).1,
            seqs::result_view(r) == old(self)@.send(old(other)@, msg@).2,
    {
        if self.id == other.id {
            return Err("Invalid client".to_string());
        }
        if other.registered {
            let message = Message {
                roomid: self.room_id.clone(),
                clientid: other.id.clone(),
                msg,
            };
            other.handle_write(message)
        } else {
            self.enqueue(msg)
        }
    }

    /// Pushes a message received on this client's socket.
    pub fn handle_read(&mut self, msg: Message) -> (r: Result<(), String>)
        ensures
            r is Ok,
            final(self)@ == old(self)@.with_read(msg@),
    {
        self.reads.push_back(msg);
        Ok(())
    }

    /// Drains the next received message for the room to route.
    pub fn poll_read(&mut self) -> (r: Option<Message>)
        ensures
            popped(r, old(self)@.reads, final(self)@.reads),
            final(self)@ == (ClientView { reads: final(self)@.reads, ..old(self)@ }),
    {
        let r = self.reads.pop_front();
        assert(r is Some ==> self@.reads =~= old(self)@.reads.skip(1));
        r
    }

    /// Delivers a message to this client (the room routing a peer's message here).
    pub fn handle_write(&mut self, msg: Message) -> (r: Result<(), String>)
        ensures
            r is Ok,
            final(self)@ == old(self)@.with_written(msg@),
    {
        self.writes.push_back(msg);
        Ok(())
    }

    /// Drains the next server-to-client message. The driver frames it as a
    /// `{ "msg": .. }` server frame and writes it to this client's socket.
    pub fn poll_write(&mut self) -> (r: Option<Message>)
        ensures
            popped(r, old(self)@.writes, final(self)@.writes),
            final(self)@ == (ClientView { writes: final(self)@.writes, ..old(self)@ }),
    {
        let r = self.writes.pop_front();
        assert(r is Some ==> self@.writes =~= old(self)@.writes.skip(1));
        r
    }

    pub fn poll_event(&mut self) -> (r: Option<ClientEvent>)
        ensures
            match r {
                Some(event) => old(self)@.events.len() > 0 && event == old(self)@.events[0]
                    && final(self)@ == (ClientView {
                    events: old(self)@.events.skip(1),
                    ..old(self)@
                }),
                None => old(self)@.events.len() == 0 && final(self)@ == old(self)@,
            },
    {
        let r = self.events.pop_front();
        assert(r is Some ==> self@.events =~= old(self)@.events.skip(1));
        r
    }

    /// Emits [`ClientEvent::Expired`] once the register-timeout deadline passes while
    /// the client is still unregistered.
    pub fn handle_timeout(&mut self, now: Instant) -> (r: Result<(), String>)
        ensures
            r is Ok,
            final(self)@ == old(self)@.ticked(now),
    {
        if let Some(deadline) = self.timeout {
            if deadline.is_due(now) && !self.registered {
                self.events.push_back(ClientEvent::Expired);
                self.timeout = None;
            }
        }
        Ok(())
    }

    /// The pending register-timeout deadline, if any.
    pub fn poll_timeout(&self) -> (r: Option<Instant>)
        ensures
            r == self@.timeout,
    {
        self.timeout
    }

    /// Releases the client's connection registration.
    pub fn close(&mut self) -> (r: Result<(), String>)
        ensures
            r is Ok,
            final(self)@ == old(self)@.disconnected(),
    {
        self.deregister();
        Ok(())
    }
}

/// The limit of a queue.
pub proof fn law_queue_limit()
    ensures
        MAX_QUEUED_MSG_COUNT == 1024,
{
}

/// A new client is not connected, does not offer, and has nothing queued or under way.
pub proof fn law_new_client_has_nothing(id: Text, room_id: Text, timeout: Option<Instant>)
    ensures
        ({
            let c = ClientView::created(id, room_id, timeout);
            &&& c.id == id
            &&& c.room_id == room_id
            &&& !c.registered
            &&& !c.is_initiator
            &&& c.timeout == timeout
            &&& c.msgs.len() == 0
            &&& c.reads.len() == 0
            &&& c.writes.len() == 0
            &&& c.events.len() == 0
        }),
{
}

/// A message for another client is written to it where it is connected; otherwise it waits,
/// behind what waits, up to the limit. Nobody sends to itself.
pub proof fn law_message_is_written_or_waits(c: ClientView, other: ClientView, msg: Text)
    ensures
        ({
            let (sender, receiver, result) = c.send(other, msg);
            if c.id == other.id {
                sender == c && receiver == other && result == Err::<(), Text>("Invalid client"@)
            } else if other.registered {
                &&& result is Ok
                &&& sender == c
                &&& receiver == (ClientView {
                    writes: other.writes.push(
                        MessageView { roomid: c.room_id, clientid: other.id, msg },
                    ),
                    ..other
                })
            } else if c.msgs.len() < 1024 {
                &&& result is Ok
                &&& sender == (ClientView { msgs: c.msgs.push(msg), ..c })
                &&& receiver == other
            } else {
                sender == c && receiver == other && result == Err::<(), Text>(
                    "Too many messages queued for the client"@,
                )
            }
        }),
{
}

/// What waits goes to a connected client in order, behind what was written to it.
pub proof fn law_queue_is_flushed_in_order(c: ClientView, other: ClientView)
    ensures
        c.can_flush_to(other) <==> c.id != other.id && other.registered,
        c.without_msgs() == (ClientView { msgs: Seq::empty(), ..c }),
        c.flushed_to(other) == (ClientView { writes: c.flushed_to(other).writes, ..other }),
        c.flushed_to(other).writes.len() == other.writes.len() + c.msgs.len(),
        other.writes.is_prefix_of(c.flushed_to(other).writes),
        forall|i: int|
            0 <= i < c.msgs.len() ==> #[trigger] c.flushed_to(other).writes[other.writes.len() + i]
                == (MessageView { roomid: c.room_id, clientid: other.id, msg: c.msgs[i] }),
{
}

/// What else happens to a client: each changes what it is about and nothing else.
pub proof fn law_changes_are_single(
    c: ClientView,
    is_initiator: bool,
    timeout: Option<Instant>,
    msg: Text,
    message: MessageView,
    now: Instant,
)
    ensures
        c.with_initiator(is_initiator) == (ClientView { is_initiator, ..c }),
        c.with_timer(timeout) == (ClientView { timeout, ..c }),
        c.connected() == (ClientView { registered: true, timeout: None, ..c }),
        c.disconnected() == (ClientView { registered: false, ..c }),
        c.has_room_in_queue() <==> c.msgs.len() < 1024,
        c.with_queued(msg) == (ClientView { msgs: c.msgs.push(msg), ..c }),
        c.with_read(message) == (ClientView { reads: c.reads.push(message), ..c }),
        c.with_written(message) == (ClientView { writes: c.writes.push(message), ..c }),
        c.ticked(now) == (if !c.registered && (c.timeout matches Some(d) && d.nanos <= now.nanos) {
            ClientView { events: c.events.push(ClientEvent::Expired), timeout: None, ..c }
        } else {
            c
        }),
{
}

} // verus!
