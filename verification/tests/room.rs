use signaling::messages::Message;
use signaling::room::Room;
use signaling::time::{Duration, Instant};

fn new_room(id: &str) -> Room {
    Room::new(id.to_string(), Duration::from_secs(1))
}

fn assert_message(actual: Option<Message>, room_id: &str, client_id: &str, msg: &str) {
    let actual = actual.expect("expected a message");
    assert_eq!(actual.roomid, room_id);
    assert_eq!(actual.clientid, client_id);
    assert_eq!(actual.msg, msg);
}

#[test]
fn new_room_is_empty() {
    let r = new_room("abc");
    assert_eq!(r.id(), "abc");
    assert_eq!(r.occupancy(), 0);
}

#[test]
fn get_or_create_client() {
    let now = Instant::from_nanos(1_000_000_000);
    let mut r = new_room("ab");
    let (id1, id2, id3) = ("1".to_string(), "2".to_string(), "3".to_string());

    // Create, then mutate and re-read to prove the second call returns the same
    // client rather than recreating it.
    r.client(now, &id1)
        .expect("first client")
        .set_initiator(true);
    assert!(r.client(now, &id1).expect("same client").is_initiator());
    assert_eq!(
        r.occupancy(),
        1,
        "client() must not recreate an existing client"
    );

    r.client(now, &id2).expect("second client");
    assert_eq!(r.occupancy(), 2);

    // The third client exceeds capacity.
    assert!(r.client(now, &id3).is_err());
}

#[test]
fn register_delivers_queued_message() {
    let now = Instant::from_nanos(1_000_000_000);
    let mut r = new_room("a");
    let (id1, id2) = ("1".to_string(), "2".to_string());

    r.client(now, &id1)
        .unwrap()
        .enqueue("hello".to_string())
        .unwrap();
    r.register(now, &id2).unwrap();

    assert_eq!(r.occupancy(), 2);
    assert!(r.client(now, &id2).unwrap().registered());
    // The first client's queued message is flushed to the newly-registered one.
    assert_message(r.poll_write(), "a", "2", "hello");
}

#[test]
fn send_queues_when_alone() {
    let now = Instant::from_nanos(1_000_000_000);
    let mut r = new_room("a");
    let id = "1".to_string();

    r.send(now, &id, "hi".to_string()).unwrap();
    // Only one client: the message is queued on it, not delivered.
    assert!(r.poll_write().is_none());
    assert_eq!(
        r.client(now, &id).unwrap().drain_msgs(),
        vec!["hi".to_string()]
    );
}

#[test]
fn send_delivers_when_paired() {
    let now = Instant::from_nanos(1_000_000_000);
    let mut r = new_room("a");
    let (id1, id2) = ("1".to_string(), "2".to_string());

    r.register(now, &id2).unwrap();
    r.send(now, &id1, "hi".to_string()).unwrap();

    // Delivered to the peer, not queued on the sender.
    assert!(r.client(now, &id1).unwrap().drain_msgs().is_empty());
    assert_message(r.poll_write(), "a", "2", "hi");
}

#[test]
fn remove_deletes_client() {
    let now = Instant::from_nanos(1_000_000_000);
    let mut r = new_room("a");
    let id = "1".to_string();

    r.register(now, &id).unwrap();
    r.remove(&id);
    // The socket close is driver-side, so the observable is that the client is gone.
    assert!(r.empty());
}
