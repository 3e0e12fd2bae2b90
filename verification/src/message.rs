use vstd::prelude::*;

verus! {

/// What a delivered frame announces: a chat payload from a member, or a
/// presence change (a member becoming active or ceasing to be active).
#[derive(Clone, Copy, PartialEq, Eq, Structural, Debug)]
pub enum MessageKind {
    Chat,
    PresenceJoined,
    PresenceLeft,
}

/// One frame queued for delivery to a connection. `sender` is the member the
/// frame is about: the author of a chat payload, or the member whose presence
/// changed. Presence frames carry an empty payload.
#[derive(Clone, Debug)]
pub struct Message {
    pub sender: u64,
    pub kind: MessageKind,
    pub payload: Vec<u8>,
}

/// Mathematical image of a `Message`.
#[verifier::ext_equal]
pub ghost struct MessageModel {
    pub sender: u64,
    pub kind: MessageKind,
    pub payload: Seq<u8>,
}

impl View for Message {
    type V = MessageModel;

    open spec fn view(&self) -> MessageModel {
        MessageModel { sender: self.sender, kind: self.kind, payload: self.payload@ }
    }
}

/// The frame broadcast when `member` becomes active in a room.
pub open spec fn presence_joined_model(member: u64) -> MessageModel {
    MessageModel { sender: member, kind: MessageKind::PresenceJoined, payload: Seq::empty() }
}

/// The frame broadcast when `member` ceases to be active in a room.
pub open spec fn presence_left_model(member: u64) -> MessageModel {
    MessageModel { sender: member, kind: MessageKind::PresenceLeft, payload: Seq::empty() }
}

/// The chat frame built when `sender` publishes `payload`.
pub open spec fn chat_model(sender: u64, payload: Seq<u8>) -> MessageModel {
    MessageModel { sender, kind: MessageKind::Chat, payload }
}

impl Message {
    /// Builds the presence frame announcing that `member` became active.
    pub fn presence_joined(member: u64) -> (m: Message)
        ensures
            m@ == presence_joined_model(member),
    {
        let m = Message { sender: member, kind: MessageKind::PresenceJoined, payload: Vec::new() };
        proof {
            assert(m@ =~= presence_joined_model(member));
        }
        m
    }

    /// Builds the presence frame announcing that `member` is no longer active.
    pub fn presence_left(member: u64) -> (m: Message)
        ensures
            m@ == presence_left_model(member),
    {
        let m = Message { sender: member, kind: MessageKind::PresenceLeft, payload: Vec::new() };
        proof {
            assert(m@ =~= presence_left_model(member));
        }
        m
    }

    /// Builds the chat frame for `sender` publishing `payload`.
    pub fn chat(sender: u64, payload: Vec<u8>) -> (m: Message)
        ensures
            m@ == chat_model(sender, payload@),
    {
        let m = Message { sender, kind: MessageKind::Chat, payload };
        proof {
            assert(m@ =~= chat_model(sender, m.payload@));
        }
        m
    }
}

} // verus!
