use chat_core::connection::{ConnState, Connection};
use chat_core::errors::ChatError;
use chat_core::message::{Message, MessageKind};
use chat_core::room::{ChatRoom, RosterState};

const ALICE: u64 = 1;
const BOB: u64 = 2;
const CAROL: u64 = 3;

/// A room whose (empty) roster has loaded, ready for members and attaches.
fn ready_room(id: u64) -> ChatRoom {
    let mut room = ChatRoom::new(id);
    room.apply_roster(&Vec::new());
    assert_eq!(room.roster_state(), RosterState::Ready);
    room
}

fn attach(room: &mut ChatRoom, member: u64, capacity: usize) -> Result<u64, ChatError> {
    room.connection_attach(Connection::new(member, capacity))
}

fn drain_all(room: &mut ChatRoom, instance: u64) -> Vec<Message> {
    let mut out = Vec::new();
    while let Some(m) = room.take_delivery(instance) {
        out.push(m);
    }
    out
}

#[test]
fn attach_requires_membership() {
    // Room created empty; alice is made a member and attaches; bob, never a
    // member, is rejected and presence is untouched.
    let mut room = ready_room(1);
    room.add_member(ALICE);
    let r = attach(&mut room, ALICE, 8);
    assert!(r.is_ok());
    assert!(room.is_active(ALICE));
    assert_eq!(room.active_count(), 1);

    let r = attach(&mut room, BOB, 8);
    assert_eq!(r, Err(ChatError::NotAMember));
    assert!(!room.is_active(BOB));
    assert_eq!(room.active_count(), 1);
    assert!(room.is_active(ALICE));
}

#[test]
fn echo_disabled_delivery() {
    // With sender-echo disabled (the default), carol receives alice's "hi"
    // and alice's own connection does not receive it back.
    let mut room = ready_room(1);
    room.add_member(ALICE);
    room.add_member(CAROL);
    let alice = attach(&mut room, ALICE, 8).unwrap();
    let carol = attach(&mut room, CAROL, 8).unwrap();
    // Clear the presence frames queued by the attaches themselves.
    drain_all(&mut room, alice);
    drain_all(&mut room, carol);

    assert!(room.publish(alice, b"hi".to_vec()).is_ok());

    let got = drain_all(&mut room, carol);
    assert_eq!(got.len(), 1);
    assert_eq!(got[0].kind, MessageKind::Chat);
    assert_eq!(got[0].sender, ALICE);
    assert_eq!(got[0].payload, b"hi".to_vec());

    let echoed = drain_all(&mut room, alice);
    assert!(echoed.is_empty());
}

#[test]
fn sender_echo_enabled_delivery() {
    let mut room = ready_room(1);
    assert!(!room.echo_enabled());
    room.set_sender_echo(true);
    assert!(room.echo_enabled());
    room.add_member(ALICE);
    let alice = attach(&mut room, ALICE, 8).unwrap();

    assert!(room.publish(alice, b"me".to_vec()).is_ok());
    let got = drain_all(&mut room, alice);
    assert_eq!(got.len(), 1);
    assert_eq!(got[0].kind, MessageKind::Chat);
    assert_eq!(got[0].payload, b"me".to_vec());
}

#[test]
fn per_sender_fifo_order() {
    // Frames from one sender are observed in publish order.
    let mut room = ready_room(1);
    room.add_member(ALICE);
    room.add_member(CAROL);
    let alice = attach(&mut room, ALICE, 8).unwrap();
    let carol = attach(&mut room, CAROL, 8).unwrap();
    drain_all(&mut room, carol);

    assert!(room.publish(alice, b"m1".to_vec()).is_ok());
    assert!(room.publish(alice, b"m2".to_vec()).is_ok());

    let got = drain_all(&mut room, carol);
    assert_eq!(got.len(), 2);
    assert_eq!(got[0].payload, b"m1".to_vec());
    assert_eq!(got[1].payload, b"m2".to_vec());
}

#[test]
fn overflow_drops_oldest_and_flags_lagging() {
    // Carol's queue (bound 2) is saturated by 100 publishes: the publisher is
    // never refused or blocked, carol observes exactly 98 documented drops,
    // is flagged lagging, and keeps the newest two frames in order.
    let mut room = ready_room(1);
    room.add_member(ALICE);
    room.add_member(CAROL);
    let alice = attach(&mut room, ALICE, 128).unwrap();
    let carol = attach(&mut room, CAROL, 2).unwrap();
    assert_eq!(room.conn_is_lagging(carol), Some(false));

    for i in 0..100u8 {
        assert!(room.publish(alice, vec![i]).is_ok());
    }

    assert_eq!(room.conn_is_lagging(carol), Some(true));
    assert_eq!(room.conn_dropped(carol), Some(98));
    assert_eq!(room.conn_queue_len(carol), Some(2));
    let got = drain_all(&mut room, carol);
    assert_eq!(got.len(), 2);
    assert_eq!(got[0].payload, vec![98u8]);
    assert_eq!(got[1].payload, vec![99u8]);
}

#[test]
fn remove_member_revokes_presence() {
    // Removing an active member closes all of that member's connections,
    // removes it from presence, and announces the departure to the rest.
    let mut room = ready_room(1);
    room.add_member(ALICE);
    room.add_member(CAROL);
    let alice = attach(&mut room, ALICE, 8).unwrap();
    let carol = attach(&mut room, CAROL, 8).unwrap();
    drain_all(&mut room, alice);

    room.remove_member(CAROL);

    assert!(!room.is_member(CAROL));
    assert!(!room.is_active(CAROL));
    assert_eq!(room.conn_state(carol), Some(ConnState::Closed));
    assert!(room.is_active(ALICE));
    let got = drain_all(&mut room, alice);
    assert_eq!(got.len(), 1);
    assert_eq!(got[0].kind, MessageKind::PresenceLeft);
    assert_eq!(got[0].sender, CAROL);
}

#[test]
fn remove_absent_member_is_noop() {
    let mut room = ready_room(1);
    room.add_member(ALICE);
    let _alice = attach(&mut room, ALICE, 8).unwrap();
    room.remove_member(BOB);
    assert!(room.is_member(ALICE));
    assert!(room.is_active(ALICE));
    assert_eq!(room.member_count(), 1);
}

#[test]
fn detach_is_idempotent() {
    // Detaching the same connection twice leaves the same room state as
    // detaching it once.
    let mut room = ready_room(1);
    room.add_member(ALICE);
    let first = attach(&mut room, ALICE, 8).unwrap();
    let second = attach(&mut room, ALICE, 8).unwrap();

    room.connection_detach(first);
    assert_eq!(room.conn_state(first), Some(ConnState::Closed));
    // Another device keeps alice present.
    assert!(room.is_active(ALICE));

    room.connection_detach(first);
    assert_eq!(room.conn_state(first), Some(ConnState::Closed));
    assert!(room.is_active(ALICE));
    assert_eq!(room.active_count(), 1);

    room.connection_detach(second);
    assert!(!room.is_active(ALICE));
    assert_eq!(room.active_count(), 0);
}

#[test]
fn detach_unknown_connection_is_noop() {
    let mut room = ready_room(1);
    room.add_member(ALICE);
    let _alice = attach(&mut room, ALICE, 8).unwrap();
    room.connection_detach(999);
    assert!(room.is_active(ALICE));
}

#[test]
fn presence_events_are_broadcast() {
    let mut room = ready_room(1);
    room.add_member(ALICE);
    room.add_member(CAROL);
    let alice = attach(&mut room, ALICE, 8).unwrap();

    let carol = attach(&mut room, CAROL, 8).unwrap();
    let got = drain_all(&mut room, alice);
    assert_eq!(got.len(), 1);
    assert_eq!(got[0].kind, MessageKind::PresenceJoined);
    assert_eq!(got[0].sender, CAROL);
    // The newcomer hears nothing about itself.
    assert!(drain_all(&mut room, carol).is_empty());

    room.connection_detach(carol);
    let got = drain_all(&mut room, alice);
    assert_eq!(got.len(), 1);
    assert_eq!(got[0].kind, MessageKind::PresenceLeft);
    assert_eq!(got[0].sender, CAROL);
}

#[test]
fn roster_pending_rejects_attach() {
    let mut room = ChatRoom::new(1);
    assert_eq!(room.roster_state(), RosterState::Pending);
    room.add_member(ALICE);
    let r = attach(&mut room, ALICE, 8);
    assert_eq!(r, Err(ChatError::StorageUnavailable));
    assert!(!room.is_active(ALICE));
}

#[test]
fn roster_load_failure_fails_open() {
    let mut room = ChatRoom::new(1);
    room.roster_load_failed();
    assert_eq!(room.roster_state(), RosterState::Unavailable);
    room.add_member(ALICE);
    let r = attach(&mut room, ALICE, 8);
    assert_eq!(r, Err(ChatError::StorageUnavailable));
    // A late roster result changes nothing once the room has settled.
    room.apply_roster(&vec![ALICE, BOB]);
    assert_eq!(room.roster_state(), RosterState::Unavailable);
}

#[test]
fn apply_roster_becomes_authoritative() {
    let mut room = ChatRoom::new(1);
    room.apply_roster(&vec![ALICE, BOB, ALICE]);
    assert_eq!(room.roster_state(), RosterState::Ready);
    assert!(room.is_member(ALICE));
    assert!(room.is_member(BOB));
    assert!(!room.is_member(CAROL));
    // Duplicates in the loaded roster collapse.
    assert_eq!(room.member_count(), 2);
    // A second load result is ignored.
    room.apply_roster(&vec![CAROL]);
    assert!(!room.is_member(CAROL));
    assert!(room.is_member(ALICE));
}

#[test]
fn publish_from_draining_is_rejected() {
    let mut room = ready_room(1);
    room.add_member(ALICE);
    let alice = attach(&mut room, ALICE, 8).unwrap();
    room.connection_begin_drain(alice);
    assert_eq!(room.conn_state(alice), Some(ConnState::Draining));
    assert_eq!(
        room.publish(alice, b"late".to_vec()),
        Err(ChatError::ConnectionClosing)
    );
    // Draining keeps the member present until the detach.
    assert!(room.is_active(ALICE));
}

#[test]
fn publish_from_closed_or_unknown_is_rejected() {
    let mut room = ready_room(1);
    room.add_member(ALICE);
    let alice = attach(&mut room, ALICE, 8).unwrap();
    room.connection_detach(alice);
    assert_eq!(
        room.publish(alice, b"late".to_vec()),
        Err(ChatError::ConnectionClosed)
    );
    assert_eq!(
        room.publish(4242, b"ghost".to_vec()),
        Err(ChatError::ConnectionClosed)
    );
}

#[test]
fn draining_connection_still_flushes() {
    // A draining connection accepts no new frames but its queue flushes.
    let mut room = ready_room(1);
    room.add_member(ALICE);
    room.add_member(CAROL);
    let alice = attach(&mut room, ALICE, 8).unwrap();
    let carol = attach(&mut room, CAROL, 8).unwrap();
    drain_all(&mut room, carol);

    assert!(room.publish(alice, b"before".to_vec()).is_ok());
    room.connection_begin_drain(carol);
    // New frames no longer reach the draining connection.
    assert!(room.publish(alice, b"after".to_vec()).is_ok());

    let got = drain_all(&mut room, carol);
    assert_eq!(got.len(), 1);
    assert_eq!(got[0].payload, b"before".to_vec());
    room.connection_detach(carol);
    assert!(!room.is_active(CAROL));
}
