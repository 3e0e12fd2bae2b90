use chat_core::connection::Connection;
use chat_core::registry::RoomRegistry;

const ALICE: u64 = 1;

#[test]
fn get_or_create_single_instance() {
    // Repeated first-references to one id — what racing callers serialized
    // on the registry's scope perform — produce exactly one room.
    let mut reg = RoomRegistry::new();
    assert_eq!(reg.room_count(), 0);
    let a = reg.get_or_create(7);
    let b = reg.get_or_create(7);
    assert_eq!(a, b);
    assert_eq!(reg.room_count(), 1);
    assert_eq!(reg.room_at(a).room_id(), 7);

    let c = reg.get_or_create(9);
    assert_ne!(a, c);
    assert_eq!(reg.room_count(), 2);
}

#[test]
fn new_room_starts_empty_and_pending() {
    let mut reg = RoomRegistry::new();
    let idx = reg.get_or_create(7);
    let room = reg.room_at(idx);
    assert_eq!(room.member_count(), 0);
    assert_eq!(room.active_count(), 0);
}

#[test]
fn retire_if_idle_removes_only_idle_rooms() {
    let mut reg = RoomRegistry::new();
    let idx = reg.get_or_create(7);
    let instance;
    {
        let room = reg.room_at_mut(idx);
        room.apply_roster(&vec![ALICE]);
        instance = room.connection_attach(Connection::new(ALICE, 8)).unwrap();
    }
    // An occupied room survives a retire request.
    reg.retire_if_idle(7);
    assert_eq!(reg.room_count(), 1);

    // Retiring an unknown id is a no-op, never an error.
    reg.retire_if_idle(999);
    assert_eq!(reg.room_count(), 1);

    // Once the last connection detaches the room is eligible.
    {
        let room = reg.room_at_mut(idx);
        room.connection_detach(instance);
        assert_eq!(room.active_count(), 0);
    }
    reg.retire_if_idle(7);
    assert_eq!(reg.room_count(), 0);

    // A later reference simply recreates the room.
    let idx2 = reg.get_or_create(7);
    assert_eq!(reg.room_at(idx2).room_id(), 7);
    assert_eq!(reg.room_count(), 1);

    // Retiring an already-retired id again stays a no-op.
    reg.retire_if_idle(11);
    assert_eq!(reg.room_count(), 1);
}
