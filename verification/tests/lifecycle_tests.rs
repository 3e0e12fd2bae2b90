use chat_core::connection::{ConnState, Connection};
use chat_core::message::{Message, MessageKind};
use chat_core::room::{ChatRoom, RosterState};

const ALICE: u64 = 1;

#[test]
fn connection_starts_connecting() {
    let c = Connection::new(ALICE, 4);
    assert_eq!(c.state, ConnState::Connecting);
    assert_eq!(c.member_id, ALICE);
    assert!(c.outbound.is_empty());
    assert!(!c.lagging);
    assert_eq!(c.dropped, 0);
}

#[test]
fn lifecycle_single_forward_pass() {
    // Connecting -> Active -> Draining -> Closed, and the terminal state is
    // never left: a second detach does not repeat the transition.
    let mut room = ChatRoom::new(1);
    room.apply_roster(&vec![ALICE]);
    assert_eq!(room.roster_state(), RosterState::Ready);

    let instance = room
        .connection_attach(Connection::new(ALICE, 4))
        .unwrap();
    assert_eq!(room.conn_state(instance), Some(ConnState::Active));

    room.connection_begin_drain(instance);
    assert_eq!(room.conn_state(instance), Some(ConnState::Draining));

    // A drain request on a draining connection changes nothing.
    room.connection_begin_drain(instance);
    assert_eq!(room.conn_state(instance), Some(ConnState::Draining));

    room.connection_detach(instance);
    assert_eq!(room.conn_state(instance), Some(ConnState::Closed));

    room.connection_detach(instance);
    assert_eq!(room.conn_state(instance), Some(ConnState::Closed));

    // A drain request on a closed connection changes nothing either.
    room.connection_begin_drain(instance);
    assert_eq!(room.conn_state(instance), Some(ConnState::Closed));
}

#[test]
fn active_to_closed_without_draining() {
    let mut room = ChatRoom::new(1);
    room.apply_roster(&vec![ALICE]);
    let instance = room
        .connection_attach(Connection::new(ALICE, 4))
        .unwrap();
    assert_eq!(room.conn_state(instance), Some(ConnState::Active));
    room.connection_detach(instance);
    assert_eq!(room.conn_state(instance), Some(ConnState::Closed));
}

#[test]
fn instance_ids_distinguish_devices() {
    let mut room = ChatRoom::new(1);
    room.apply_roster(&vec![ALICE]);
    let first = room.connection_attach(Connection::new(ALICE, 4)).unwrap();
    let second = room.connection_attach(Connection::new(ALICE, 4)).unwrap();
    assert_ne!(first, second);
    assert_eq!(room.active_count(), 1);
}

#[test]
fn queue_drop_oldest_policy() {
    // The bounded queue discards the oldest unsent frame on overflow and
    // records the overflow for diagnostics.
    let mut c = Connection::new(ALICE, 2);
    c.deliver(Message::chat(ALICE, vec![0]));
    c.deliver(Message::chat(ALICE, vec![1]));
    assert!(!c.lagging);
    assert_eq!(c.dropped, 0);

    c.deliver(Message::chat(ALICE, vec![2]));
    assert!(c.lagging);
    assert_eq!(c.dropped, 1);
    assert_eq!(c.outbound.len(), 2);

    let first = c.pop_outbound().unwrap();
    assert_eq!(first.payload, vec![1]);
    let second = c.pop_outbound().unwrap();
    assert_eq!(second.payload, vec![2]);
    assert!(c.pop_outbound().is_none());
}

#[test]
fn presence_frames_carry_member_and_kind() {
    let joined = Message::presence_joined(ALICE);
    assert_eq!(joined.kind, MessageKind::PresenceJoined);
    assert_eq!(joined.sender, ALICE);
    assert!(joined.payload.is_empty());

    let left = Message::presence_left(ALICE);
    assert_eq!(left.kind, MessageKind::PresenceLeft);
    assert_eq!(left.sender, ALICE);
    assert!(left.payload.is_empty());
}
