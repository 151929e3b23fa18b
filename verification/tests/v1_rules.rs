use signaling::client::{Client, ClientEvent, MAX_QUEUED_MSG_COUNT};
use signaling::messages::Message;
use signaling::room::{Room, MAX_ROOM_CAPACITY};
use signaling::room_table::RoomTable;
use signaling::time::{Duration, Instant};

fn at(secs: u64) -> Instant {
    Instant::from_nanos(1_000_000_000) + Duration::from_secs(secs)
}

fn room() -> Room {
    Room::new("room".to_string(), Duration::from_secs(10))
}

fn name(id: &str) -> String {
    id.to_string()
}

fn client(id: &str) -> Client {
    Client::new(id.to_string(), "room".to_string(), None)
}

fn polled(message: Option<Message>) -> (String, String, String) {
    let message = message.expect("a message");
    (message.roomid, message.clientid, message.msg)
}

#[test]
fn a_third_client_gets_nowhere() {
    let mut r = room();
    assert_eq!(MAX_ROOM_CAPACITY, 2);
    assert_eq!(r.add_client(at(0), &name("1"), false), Ok((true, vec![])));
    assert_eq!(r.add_client(at(0), &name("2"), false), Ok((false, vec![])));
    assert_eq!(
        r.add_client(at(0), &name("3"), false),
        Err("FULL".to_string())
    );
    assert_eq!(
        r.register(at(0), &name("3")),
        Err("Max room capacity reached".to_string())
    );
    assert_eq!(
        r.send(at(0), &name("3"), "m".to_string()),
        Err("Max room capacity reached".to_string())
    );
    assert_eq!(r.occupancy(), 2);
}

#[test]
fn a_client_joins_once() {
    let mut r = room();
    r.add_client(at(0), &name("1"), false).unwrap();
    assert_eq!(
        r.add_client(at(0), &name("1"), false),
        Err("DUPLICATE_CLIENT".to_string())
    );
    assert_eq!(r.occupancy(), 1);
}

#[test]
fn the_first_client_offers_until_it_leaves() {
    let mut r = room();
    r.add_client(at(0), &name("1"), false).unwrap();
    r.add_client(at(0), &name("2"), false).unwrap();
    assert!(r.client_is_initiator(&name("1")));
    assert!(!r.client_is_initiator(&name("2")));
    r.remove(&name("1"));
    assert!(!r.client_is_initiator(&name("1")));
    assert!(r.client_is_initiator(&name("2")));
    r.remove(&name("unknown"));
    assert_eq!(r.occupancy(), 1);
}

#[test]
fn loopback_adds_a_second_client_that_answers() {
    let mut r = room();
    assert_eq!(r.add_client(at(0), &name("1"), true), Ok((true, vec![])));
    assert_eq!(r.occupancy(), 2);
    assert!(r.client_is_initiator(&name("1")));
    assert!(!r.client_is_initiator(&name("LOOPBACK_CLIENT_ID")));

    let mut full = room();
    full.add_client(at(0), &name("1"), false).unwrap();
    assert_eq!(full.add_client(at(0), &name("2"), true), Ok((false, vec![])));
    assert_eq!(full.occupancy(), 2);
}

#[test]
fn a_joiner_gets_the_queue_once_and_in_order() {
    let mut r = room();
    for msg in ["a", "b", "c"] {
        r.send(at(0), &name("1"), msg.to_string()).unwrap();
    }
    assert_eq!(
        r.add_client(at(0), &name("2"), false),
        Ok((false, vec!["a".to_string(), "b".to_string(), "c".to_string()]))
    );
    r.register(at(0), &name("2")).unwrap();
    assert!(r.poll_write().is_none());
}

#[test]
fn a_registration_gets_the_queue_once_and_in_order() {
    let mut r = room();
    r.register(at(0), &name("1")).unwrap();
    r.add_client(at(0), &name("2"), false).unwrap();
    for msg in ["a", "b"] {
        r.send(at(0), &name("1"), msg.to_string()).unwrap();
    }
    assert!(r.poll_write().is_none());
    r.register(at(0), &name("2")).unwrap();
    for msg in ["a", "b"] {
        assert_eq!(polled(r.poll_write()), (name("room"), name("2"), name(msg)));
    }
    assert!(r.poll_write().is_none());
    r.deregister(at(0), &name("2"));
    r.register(at(0), &name("2")).unwrap();
    assert!(r.poll_write().is_none());
}

#[test]
fn a_second_registration_is_refused() {
    let mut r = room();
    r.register(at(0), &name("1")).unwrap();
    assert_eq!(
        r.register(at(0), &name("1")),
        Err("Duplicated registration".to_string())
    );
}

#[test]
fn a_queue_has_a_limit() {
    let mut r = room();
    for _ in 0..MAX_QUEUED_MSG_COUNT {
        r.send(at(0), &name("1"), "m".to_string()).unwrap();
    }
    assert_eq!(
        r.send(at(0), &name("1"), "m".to_string()),
        Err("Too many messages queued for the client".to_string())
    );
    r.add_client(at(0), &name("2"), false).unwrap();
    assert_eq!(r.send(at(0), &name("1"), "m".to_string()), Ok(()));
}

#[test]
fn time_removes_those_that_did_not_register() {
    let mut r = room();
    r.add_client(at(0), &name("1"), false).unwrap();
    r.register(at(0), &name("2")).unwrap();
    assert_eq!(r.poll_timeout(), Some(at(10)));
    r.handle_timeout(at(9)).unwrap();
    assert_eq!(r.occupancy(), 2);
    assert!(r.client_is_initiator(&name("1")));
    r.handle_timeout(at(10)).unwrap();
    assert_eq!(r.occupancy(), 1);
    assert!(r.client_is_initiator(&name("2")));
    assert_eq!(r.poll_timeout(), None);
    r.handle_timeout(at(1_000)).unwrap();
    assert_eq!(r.occupancy(), 1);
    assert_eq!(r.ws_count(), 1);
}

#[test]
fn a_lost_connection_has_a_grace() {
    let mut r = room();
    r.register(at(0), &name("1")).unwrap();
    assert!(!r.deregister(at(5), &name("unknown")));
    assert!(r.deregister(at(5), &name("1")));
    assert!(!r.deregister(at(6), &name("1")));
    assert_eq!(r.poll_timeout(), Some(at(15)));
    r.handle_timeout(at(14)).unwrap();
    r.register(at(14), &name("1")).unwrap();
    assert_eq!(r.poll_timeout(), None);
    r.handle_timeout(at(15)).unwrap();
    assert_eq!(r.occupancy(), 1);
}

#[test]
fn only_unregistered_clients_are_cleaned_up() {
    let mut r = room();
    r.register(at(0), &name("1")).unwrap();
    assert!(!r.remove_if_unregistered(&name("1")));
    assert!(!r.remove_if_unregistered(&name("unknown")));
    r.deregister(at(0), &name("1"));
    assert!(r.remove_if_unregistered(&name("1")));
    assert!(r.empty());
}

#[test]
fn reads_and_writes_of_unknown_clients_are_dropped() {
    let mut r = room();
    r.register(at(0), &name("1")).unwrap();
    let message = Message {
        roomid: name("room"),
        clientid: name("9"),
        msg: name("m"),
    };
    r.handle_read(message.clone()).unwrap();
    r.handle_write(message).unwrap();
    assert!(r.poll_read().is_none());
    assert!(r.poll_write().is_none());
    r.close().unwrap();
    assert!(r.empty());
}

#[test]
fn rooms_do_not_concern_each_other() {
    let mut table = RoomTable::new(Duration::from_secs(10));
    for id in ["a", "b"] {
        table.register(at(0), &name(id), &name("1")).unwrap();
        table.join(at(0), &name(id), &name("2"), false).unwrap();
    }
    assert_eq!(table.client_count(), 4);
    assert_eq!(table.ws_count(), 2);
    table.send(at(0), &name("a"), &name("2"), name("m")).unwrap();
    assert_eq!(
        polled(table.poll_write()),
        (name("a"), name("1"), name("m"))
    );
    table.remove(&name("a"), &name("1"));
    table.remove(&name("a"), &name("2"));
    assert_eq!(table.occupancy(&name("a")), 0);
    assert_eq!(table.occupancy(&name("b")), 2);
    table.remove(&name("unknown"), &name("1"));
    table.deregister(at(0), &name("unknown"), &name("1"));
    assert_eq!(table.room_count(), 1);
}

#[test]
fn relayed_reads_reach_the_peer() {
    let mut table = RoomTable::new(Duration::from_secs(10));
    table.register(at(0), &name("a"), &name("1")).unwrap();
    table.register(at(0), &name("a"), &name("2")).unwrap();
    for (clientid, msg) in [("2", "x"), ("1", "y"), ("1", "z")] {
        table
            .handle_read(Message {
                roomid: name("a"),
                clientid: name(clientid),
                msg: name(msg),
            })
            .unwrap();
    }
    assert_eq!(table.relay_reads(at(0)), Ok(()));
    assert!(table.poll_read().is_none());
    assert_eq!(polled(table.poll_write()), (name("a"), name("1"), name("x")));
    assert_eq!(polled(table.poll_write()), (name("a"), name("2"), name("y")));
    assert_eq!(polled(table.poll_write()), (name("a"), name("2"), name("z")));
    assert!(table.poll_write().is_none());
}

#[test]
fn a_client_queues_until_its_peer_is_there() {
    let (mut a, mut b) = (client("a"), client("b"));
    a.send(&mut b, name("one")).unwrap();
    assert_eq!(a.send_queued(&mut b), Err("Invalid client".to_string()));
    assert!(b.poll_write().is_none());
    b.register().unwrap();
    assert_eq!(b.register(), Err("Duplicated registration".to_string()));
    a.send_queued(&mut b).unwrap();
    a.send(&mut b, name("two")).unwrap();
    assert_eq!(polled(b.poll_write()), (name("room"), name("b"), name("one")));
    assert_eq!(polled(b.poll_write()), (name("room"), name("b"), name("two")));
    assert!(b.poll_write().is_none());
    assert!(a.drain_msgs().is_empty());
}

#[test]
fn a_client_does_not_talk_to_itself() {
    let (mut a, mut same) = (client("a"), client("a"));
    assert_eq!(
        a.send(&mut same, name("m")),
        Err("Invalid client".to_string())
    );
    assert_eq!(a.send_queued(&mut same), Err("Invalid client".to_string()));
}

#[test]
fn a_client_expires_once() {
    let mut a = Client::new(name("a"), name("room"), Some(at(10)));
    assert_eq!(a.id(), "a");
    assert_eq!(a.room_id(), "room");
    assert_eq!(a.poll_timeout(), Some(at(10)));
    a.handle_timeout(at(9)).unwrap();
    assert_eq!(a.poll_event(), None);
    a.handle_timeout(at(10)).unwrap();
    a.handle_timeout(at(11)).unwrap();
    assert_eq!(a.poll_event(), Some(ClientEvent::Expired));
    assert_eq!(a.poll_event(), None);
    assert_eq!(a.poll_timeout(), None);

    let mut b = Client::new(name("b"), name("room"), Some(at(10)));
    b.register().unwrap();
    assert!(b.registered());
    b.handle_timeout(at(10)).unwrap();
    assert_eq!(b.poll_event(), None);
    b.deregister();
    b.set_timer(Some(at(20)));
    assert!(!b.registered());
    assert_eq!(b.poll_timeout(), Some(at(20)));
    b.set_initiator(true);
    assert!(b.is_initiator());
}

#[test]
fn a_client_passes_on_what_it_reads() {
    let mut a = client("a");
    a.handle_read(Message {
        roomid: name("room"),
        clientid: name("a"),
        msg: name("m"),
    })
    .unwrap();
    assert_eq!(polled(a.poll_read()), (name("room"), name("a"), name("m")));
    assert!(a.poll_read().is_none());
    a.register().unwrap();
    a.close().unwrap();
    assert!(!a.registered());
}
