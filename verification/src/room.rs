use vstd::prelude::*;

use crate::connection::{deliver_model, step_allowed, ConnModel, ConnState, Connection};
use crate::errors::ChatError;
use crate::message::{
    chat_model, presence_joined_model, presence_left_model, Message, MessageModel,
};

verus! {

/// Whether the room's roster is authoritative. A room is created `Pending`
/// while the persistence collaborator loads the roster; `apply_roster` makes
/// it `Ready`, `roster_load_failed` makes it `Unavailable`. Connections can
/// attach only to a `Ready` room: attempts on a `Pending` or `Unavailable`
/// roster are rejected for retry rather than served from unknown membership.
#[derive(Clone, Copy, PartialEq, Eq, Structural, Debug)]
pub enum RosterState {
    Pending,
    Ready,
    Unavailable,
}

/// A room: the membership roster (who is allowed in), the presence set (who
/// has at least one live connection), and the attached connections that
/// messages fan out to. All mutation of one room's state goes through one
/// exclusive scope held by the caller, so each operation below is one atomic
/// step of the room's state machine.
pub struct ChatRoom {
    pub id: u64,
    pub roster: RosterState,
    pub members: Vec<u64>,
    pub active: Vec<u64>,
    pub conns: Vec<Connection>,
    pub next_instance: u64,
    pub sender_echo: bool,
}

/// Mathematical image of a `ChatRoom`: the two rosters as sets, the attached
/// connections as a sequence of connection models.
#[verifier::ext_equal]
pub ghost struct RoomModel {
    pub id: u64,
    pub roster: RosterState,
    pub members: Set<u64>,
    pub active: Set<u64>,
    pub conns: Seq<ConnModel>,
    pub next_instance: u64,
    pub sender_echo: bool,
}

/// The images of a sequence of connections.
pub open spec fn conns_view(cs: Seq<Connection>) -> Seq<ConnModel> {
    cs.map_values(|c: Connection| c@)
}

impl View for ChatRoom {
    type V = RoomModel;

    open spec fn view(&self) -> RoomModel {
        RoomModel {
            id: self.id,
            roster: self.roster,
            members: self.members@.to_set(),
            active: self.active@.to_set(),
            conns: conns_view(self.conns@),
            next_instance: self.next_instance,
            sender_echo: self.sender_echo,
        }
    }
}

/// No value occurs twice in the sequence.
pub open spec fn seq_no_dups(s: Seq<u64>) -> bool {
    forall|i: int, j: int| 0 <= i < j < s.len() ==> s[i] != s[j]
}

/// Some connection of `member` in the table is live (active or draining).
pub open spec fn seq_member_live(conns: Seq<ConnModel>, member: u64) -> bool {
    exists|i: int|
        0 <= i < conns.len() && (#[trigger] conns[i]).member_id == member && conns[i].live()
}

/// The model of a freshly created room: empty rosters, no connections, the
/// membership roster not yet loaded.
pub open spec fn empty_room_model(id: u64) -> RoomModel {
    RoomModel {
        id,
        roster: RosterState::Pending,
        members: Set::empty(),
        active: Set::empty(),
        conns: Seq::empty(),
        next_instance: 0,
        sender_echo: false,
    }
}

impl RoomModel {
    /// Some attached connection carries this instance id.
    pub open spec fn has_conn(self, instance: u64) -> bool {
        exists|i: int|
            0 <= i < self.conns.len() && (#[trigger] self.conns[i]).instance_id == instance
    }

    /// The index of the connection with this instance id (unique under `inv`).
    pub open spec fn conn_index(self, instance: u64) -> int {
        choose|i: int|
            0 <= i < self.conns.len() && (#[trigger] self.conns[i]).instance_id == instance
    }

    /// The connection with this instance id (meaningful when `has_conn`).
    pub open spec fn conn_at(self, instance: u64) -> ConnModel {
        self.conns[self.conn_index(instance)]
    }

    /// The member has at least one live (active or draining) connection.
    pub open spec fn member_live(self, member: u64) -> bool {
        seq_member_live(self.conns, member)
    }

    /// The room's invariant:
    /// - instance ids are unique among attached connections and below the
    ///   allocation counter;
    /// - every attached connection is well formed and past `Connecting`;
    /// - presence is contained in membership (`active` is a subset of
    ///   `members`);
    /// - a member is in `active` exactly when at least one of its connections
    ///   to this room is live;
    /// - before the roster is authoritative no connection is attached.
    pub open spec fn inv(self) -> bool {
        &&& forall|i: int, j: int|
            0 <= i < j < self.conns.len() ==> (#[trigger] self.conns[i]).instance_id != (
            #[trigger] self.conns[j]).instance_id
        &&& forall|i: int|
            0 <= i < self.conns.len() ==> (#[trigger] self.conns[i]).wf() && self.conns[i].state
                != ConnState::Connecting && self.conns[i].instance_id < self.next_instance
        &&& self.active.subset_of(self.members)
        &&& forall|m: u64| #[trigger] self.active.contains(m) <==> self.member_live(m)
        &&& self.roster != RosterState::Ready ==> self.conns.len() == 0
    }
}

impl ChatRoom {
    /// Well-formedness: the model invariant holds and the two roster vectors
    /// list each identity at most once, so they faithfully represent sets.
    pub open spec fn wf(self) -> bool {
        &&& self@.inv()
        &&& seq_no_dups(self.members@)
        &&& seq_no_dups(self.active@)
    }
}

// ---------------------------------------------------------------------------
// Helpers on sequences of identities.
// ---------------------------------------------------------------------------
proof fn lemma_to_set_push(s: Seq<u64>, x: u64)
    ensures
        s.push(x).to_set() == s.to_set().insert(x),
{
    assert forall|y: u64| #[trigger] s.push(x).contains(y) implies s.contains(y) || y == x by {
        let i = choose|i: int| 0 <= i < s.push(x).len() && s.push(x)[i] == y;
        if i < s.len() {
            assert(s[i] == y);
        }
    };
    assert forall|y: u64| #[trigger] s.contains(y) implies s.push(x).contains(y) by {
        let i = choose|i: int| 0 <= i < s.len() && s[i] == y;
        assert(s.push(x)[i] == y);
    };
    assert(s.push(x)[s.len() as int] == x);
    assert(s.push(x).contains(x));
    assert(s.push(x).to_set() =~= s.to_set().insert(x));
}

proof fn lemma_to_set_remove_at(s: Seq<u64>, k: int)
    requires
        seq_no_dups(s),
        0 <= k < s.len(),
    ensures
        s.remove(k).to_set() == s.to_set().remove(s[k]),
{
    let t = s.remove(k);
    assert forall|y: u64| #[trigger] t.contains(y) implies s.contains(y) && y != s[k] by {
        let i = choose|i: int| 0 <= i < t.len() && t[i] == y;
        if i < k {
            assert(s[i] == y);
        } else {
            assert(s[i + 1] == y);
        }
    };
    assert forall|y: u64| s.contains(y) && y != s[k] implies #[trigger] t.contains(y) by {
        let i = choose|i: int| 0 <= i < s.len() && s[i] == y;
        if i < k {
            assert(t[i] == y);
        } else {
            assert(i != k);
            assert(t[i - 1] == y);
        }
    };
    assert(t.to_set() =~= s.to_set().remove(s[k]));
}

fn vec_contains(v: &Vec<u64>, x: u64) -> (b: bool)
    ensures
        b == v@.contains(x),
{
    let mut i: usize = 0;
    while i < v.len()
        invariant
            i <= v.len(),
            forall|k: int| 0 <= k < i ==> v@[k] != x,
        decreases v.len() - i,
    {
        if v[i] == x {
            return true;
        }
        i += 1;
    }
    false
}

fn vec_remove_value(v: &mut Vec<u64>, x: u64)
    requires
        seq_no_dups(old(v)@),
    ensures
        seq_no_dups(final(v)@),
        final(v)@.to_set() == old(v)@.to_set().remove(x),
{
    let mut i: usize = 0;
    while i < v.len()
        invariant
            i <= v.len(),
            seq_no_dups(v@),
            v@ == old(v)@,
            forall|k: int| 0 <= k < i ==> v@[k] != x,
        decreases v.len() - i,
    {
        if v[i] == x {
            proof {
                lemma_to_set_remove_at(v@, i as int);
            }
            let _ = v.remove(i);
            return ;
        }
        i += 1;
    }
    proof {
        assert(!v@.contains(x));
        assert(v@.to_set() =~= old(v)@.to_set().remove(x));
    }
}

fn dedup_ids(src: &Vec<u64>) -> (r: Vec<u64>)
    ensures
        seq_no_dups(r@),
        r@.to_set() == src@.to_set(),
{
    let mut r: Vec<u64> = Vec::new();
    let mut i: usize = 0;
    while i < src.len()
        invariant
            i <= src.len(),
            seq_no_dups(r@),
            forall|y: u64| #[trigger] r@.contains(y) <==> src@.subrange(0, i as int).contains(y),
        decreases src.len() - i,
    {
        let ghost pre = r@;
        let x = src[i];
        if !vec_contains(&r, x) {
            r.push(x);
        }
        proof {
            assert(src@.subrange(0, i + 1 as int) =~= src@.subrange(0, i as int).push(src@[i as int]));
            assert forall|y: u64| #[trigger] r@.contains(y) implies src@.subrange(
                0,
                i + 1 as int,
            ).contains(y) by {
                if pre.contains(y) {
                    let k = choose|k: int| 0 <= k < src@.subrange(0, i as int).len()
                        && src@.subrange(0, i as int)[k] == y;
                    assert(src@.subrange(0, i + 1 as int)[k] == y);
                } else {
                    let k = choose|k: int| 0 <= k < r@.len() && r@[k] == y;
                    assert(y == x);
                    assert(src@.subrange(0, i + 1 as int)[i as int] == y);
                }
            };
            assert forall|y: u64| src@.subrange(0, i + 1 as int).contains(y) implies #[trigger] r@
                .contains(y) by {
                let sub = src@.subrange(0, i + 1 as int);
                let k = choose|k: int| 0 <= k < sub.len() && sub[k] == y;
                if k < i {
                    assert(src@.subrange(0, i as int)[k] == y);
                    assert(pre.contains(y));
                    let k2 = choose|k2: int| 0 <= k2 < pre.len() && pre[k2] == y;
                    assert(r@[k2] == y);
                } else {
                    assert(y == x);
                    if pre.contains(x) {
                        let k2 = choose|k2: int| 0 <= k2 < pre.len() && pre[k2] == x;
                        assert(r@[k2] == x);
                    } else {
                        assert(r@[pre.len() as int] == x);
                    }
                    assert(r@.contains(x));
                }
            };
        }
        i += 1;
    }
    proof {
        assert(src@.subrange(0, src@.len() as int) =~= src@);
        assert(r@.to_set() =~= src@.to_set());
    }
    r
}

// ---------------------------------------------------------------------------
// The broadcast engine.
// ---------------------------------------------------------------------------
/// One delivery step of the broadcast engine: the frame reaches `c` exactly
/// when `c` is in the `Active` state and is not the skipped (publishing)
/// connection; a draining or closed connection receives nothing new.
pub open spec fn deliver_if_model(c: ConnModel, m: MessageModel, skip: Option<u64>) -> ConnModel {
    if c.state == ConnState::Active && skip != Some(c.instance_id) {
        deliver_model(c, m)
    } else {
        c
    }
}

/// One fan-out of the broadcast engine over a room's connection table:
/// every active connection except the skipped one gets the frame queued
/// under the drop-oldest backpressure policy; every other connection is left
/// untouched.
pub open spec fn fan_out_model(conns: Seq<ConnModel>, m: MessageModel, skip: Option<u64>) -> Seq<
    ConnModel,
> {
    conns.map_values(|c: ConnModel| deliver_if_model(c, m, skip))
}

/// The room after a successful attach of the fresh connection `c`: the
/// connections already active hear a presence frame about `c`'s member, `c`
/// itself is registered `Active` under the next instance id, and the member
/// joins the presence set.
pub open spec fn attach_ok_model(r: RoomModel, c: ConnModel) -> RoomModel {
    RoomModel {
        active: r.active.insert(c.member_id),
        conns: fan_out_model(r.conns, presence_joined_model(c.member_id), None).push(
            ConnModel { instance_id: r.next_instance, state: ConnState::Active, ..c },
        ),
        next_instance: (r.next_instance + 1) as u64,
        ..r
    }
}

/// A fan-out never changes who is attached: identity, state, and queue bound
/// of every connection are preserved, as is well-formedness.
pub proof fn lemma_fan_out_preserves(conns: Seq<ConnModel>, m: MessageModel, skip: Option<u64>)
    ensures
        fan_out_model(conns, m, skip).len() == conns.len(),
        forall|i: int|
            0 <= i < conns.len() ==> {
                let c2 = #[trigger] fan_out_model(conns, m, skip)[i];
                &&& c2.member_id == conns[i].member_id
                &&& c2.instance_id == conns[i].instance_id
                &&& c2.state == conns[i].state
                &&& c2.capacity == conns[i].capacity
                &&& c2.live() == conns[i].live()
                &&& (conns[i].wf() ==> c2.wf())
            },
{
    assert forall|i: int| 0 <= i < conns.len() implies {
        let c2 = #[trigger] fan_out_model(conns, m, skip)[i];
        &&& c2.member_id == conns[i].member_id
        &&& c2.instance_id == conns[i].instance_id
        &&& c2.state == conns[i].state
        &&& c2.capacity == conns[i].capacity
        &&& c2.live() == conns[i].live()
        &&& (conns[i].wf() ==> c2.wf())
    } by {
        let c = conns[i];
        let c2 = fan_out_model(conns, m, skip)[i];
        assert(c2 == deliver_if_model(c, m, skip));
        if c.state == ConnState::Active && skip != Some(c.instance_id) && c.wf() {
            if c.outbound.len() >= c.capacity {
                assert(c.outbound.drop_first().push(m).len() == c.outbound.len());
            }
        }
    }
}

/// The connection table after a drain request for `instance`: an `Active`
/// connection with that id moves to `Draining`; in any other state (or if no
/// such connection is attached) nothing changes.
pub open spec fn drain_model(conns: Seq<ConnModel>, instance: u64) -> Seq<ConnModel> {
    conns.map_values(
        |c: ConnModel|
            if c.instance_id == instance && c.state == ConnState::Active {
                ConnModel { state: ConnState::Draining, ..c }
            } else {
                c
            },
    )
}

/// The room after `connection_detach(instance)`. A live connection under
/// `instance` is closed; if it was its member's last live connection here,
/// the member leaves the presence set and the remaining active connections
/// hear a presence frame about it. Detaching an unknown or already-closed
/// connection changes nothing, so detach is idempotent.
pub open spec fn detach_model(r: RoomModel, instance: u64) -> RoomModel {
    if r.has_conn(instance) && r.conn_at(instance).live() {
        let i = r.conn_index(instance);
        let m = r.conns[i].member_id;
        let closed = r.conns.update(i, ConnModel { state: ConnState::Closed, ..r.conns[i] });
        if seq_member_live(closed, m) {
            RoomModel { conns: closed, ..r }
        } else {
            RoomModel {
                conns: fan_out_model(closed, presence_left_model(m), None),
                active: r.active.remove(m),
                ..r
            }
        }
    } else {
        r
    }
}

/// The connection table after a membership revocation of `member`: every live
/// connection of the member is force-closed, everything else is untouched.
pub open spec fn close_member_model(conns: Seq<ConnModel>, member: u64) -> Seq<ConnModel> {
    conns.map_values(
        |c: ConnModel|
            if c.member_id == member && c.live() {
                ConnModel { state: ConnState::Closed, ..c }
            } else {
                c
            },
    )
}

/// Which connection a publish skips: the sender's own connection unless
/// sender-echo is enabled.
pub open spec fn publish_skip(r: RoomModel, sender_instance: u64) -> Option<u64> {
    if r.sender_echo {
        None
    } else {
        Some(sender_instance)
    }
}

/// The room after an accepted publish from the connection under
/// `sender_instance`: the chat frame is fanned out to every active connection,
/// the sender's own one included only when sender-echo is enabled. Nothing but
/// outbound queues (and their overflow diagnostics) changes.
pub open spec fn publish_model(r: RoomModel, sender_instance: u64, payload: Seq<u8>) -> RoomModel {
    RoomModel {
        conns: fan_out_model(
            r.conns,
            chat_model(r.conn_at(sender_instance).member_id, payload),
            publish_skip(r, sender_instance),
        ),
        ..r
    }
}

/// Under the room invariant, the connection found at index `i` is the one
/// `conn_index`/`conn_at` denote: instance ids are unique.
pub proof fn lemma_conn_index_unique(r: RoomModel, i: int, instance: u64)
    requires
        r.inv(),
        0 <= i < r.conns.len(),
        r.conns[i].instance_id == instance,
    ensures
        r.has_conn(instance),
        r.conn_index(instance) == i,
        r.conn_at(instance) == r.conns[i],
{
    assert(r.has_conn(instance));
    let j = r.conn_index(instance);
    assert(0 <= j < r.conns.len() && r.conns[j].instance_id == instance);
    if i < j {
        assert(r.conns[i].instance_id != r.conns[j].instance_id);
    } else if j < i {
        assert(r.conns[j].instance_id != r.conns[i].instance_id);
    }
}

/// Two connection tables that agree pointwise on member identity and
/// liveness have the same live members.
proof fn lemma_live_pointwise(a: Seq<ConnModel>, b: Seq<ConnModel>)
    requires
        a.len() == b.len(),
        forall|i: int|
            0 <= i < a.len() ==> (#[trigger] b[i]).member_id == a[i].member_id && b[i].live()
                == a[i].live(),
    ensures
        forall|m: u64| #[trigger] seq_member_live(b, m) <==> seq_member_live(a, m),
{
    assert forall|m: u64| #[trigger] seq_member_live(b, m) <==> seq_member_live(a, m) by {
        if seq_member_live(a, m) {
            let i = choose|i: int|
                0 <= i < a.len() && (#[trigger] a[i]).member_id == m && a[i].live();
            assert(b[i].member_id == m && b[i].live());
        }
        if seq_member_live(b, m) {
            let i = choose|i: int|
                0 <= i < b.len() && (#[trigger] b[i]).member_id == m && b[i].live();
            assert(a[i].member_id == m && a[i].live());
        }
    };
}

fn find_conn(conns: &Vec<Connection>, instance: u64) -> (r: Option<usize>)
    ensures
        match r {
            Some(i) => i < conns@.len() && conns@[i as int]@.instance_id == instance,
            None => forall|k: int|
                0 <= k < conns@.len() ==> (#[trigger] conns@[k]@).instance_id != instance,
        },
{
    let mut i: usize = 0;
    while i < conns.len()
        invariant
            i <= conns@.len(),
            forall|k: int| 0 <= k < i ==> (#[trigger] conns@[k]@).instance_id != instance,
        decreases conns@.len() - i,
    {
        if conns[i].instance_id == instance {
            return Some(i);
        }
        i += 1;
    }
    None
}

fn member_has_live(conns: &Vec<Connection>, member: u64) -> (b: bool)
    ensures
        b == seq_member_live(conns_view(conns@), member),
{
    let mut i: usize = 0;
    while i < conns.len()
        invariant
            i <= conns@.len(),
            forall|k: int|
                0 <= k < i ==> !((#[trigger] conns@[k]@).member_id == member
                    && conns@[k]@.live()),
        decreases conns@.len() - i,
    {
        let live = conns[i].state == ConnState::Active || conns[i].state == ConnState::Draining;
        if conns[i].member_id == member && live {
            proof {
                assert(conns_view(conns@)[i as int].member_id == member && conns_view(
                    conns@,
                )[i as int].live());
            }
            return true;
        }
        i += 1;
    }
    proof {
        assert forall|k: int| 0 <= k < conns_view(conns@).len() implies !((#[trigger] conns_view(
            conns@,
        )[k]).member_id == member && conns_view(conns@)[k].live()) by {
            assert(conns_view(conns@)[k] == conns@[k]@);
        };
    }
    false
}

fn close_member(conns: &mut Vec<Connection>, member: u64)
    requires
        forall|i: int|
            0 <= i < old(conns)@.len() ==> (#[trigger] old(conns)@[i]@).live() || old(
                conns,
            )@[i]@.state == ConnState::Closed,
    ensures
        conns_view(final(conns)@) == close_member_model(conns_view(old(conns)@), member),
{
    let n = conns.len();
    let mut i: usize = 0;
    while i < n
        invariant
            n == conns@.len(),
            n == old(conns)@.len(),
            i <= n,
            forall|k: int|
                0 <= k < old(conns)@.len() ==> (#[trigger] old(conns)@[k]@).live() || old(
                    conns,
                )@[k]@.state == ConnState::Closed,
            forall|k: int|
                0 <= k < i ==> (#[trigger] conns@[k]@) == (if old(conns)@[k]@.member_id == member
                    && old(conns)@[k]@.live() {
                    ConnModel { state: ConnState::Closed, ..old(conns)@[k]@ }
                } else {
                    old(conns)@[k]@
                }),
            forall|k: int| i <= k < n ==> (#[trigger] conns@[k]) == old(conns)@[k],
        decreases n - i,
    {
        if conns[i].member_id == member {
            let c = &mut conns[i];
            c.mark_closed();
            proof {
                assert(old(conns)@[i as int]@.live() || old(conns)@[i as int]@.state
                    == ConnState::Closed);
                assert(conns@[i as int]@ =~= (ConnModel {
                    state: ConnState::Closed,
                    ..old(conns)@[i as int]@
                }));
                if !old(conns)@[i as int]@.live() {
                    assert(conns@[i as int]@ =~= old(conns)@[i as int]@);
                }
            }
        }
        i += 1;
    }
    proof {
        assert(conns_view(conns@) =~= close_member_model(conns_view(old(conns)@), member));
    }
}

fn clone_bytes(v: &Vec<u8>) -> (r: Vec<u8>)
    ensures
        r@ == v@,
{
    let mut r: Vec<u8> = Vec::new();
    let mut i: usize = 0;
    while i < v.len()
        invariant
            i <= v.len(),
            r@ == v@.subrange(0, i as int),
        decreases v.len() - i,
    {
        r.push(v[i]);
        proof {
            assert(r@ =~= v@.subrange(0, i + 1 as int));
        }
        i += 1;
    }
    proof {
        assert(v@.subrange(0, v@.len() as int) =~= v@);
    }
    r
}

fn dup_message(m: &Message) -> (r: Message)
    ensures
        r@ == m@,
{
    let r = Message { sender: m.sender, kind: m.kind, payload: clone_bytes(&m.payload) };
    proof {
        assert(r@ =~= m@);
    }
    r
}

fn fan_out(conns: &mut Vec<Connection>, msg: &Message, skip: Option<u64>)
    requires
        forall|i: int| 0 <= i < old(conns)@.len() ==> (#[trigger] old(conns)@[i]@).wf(),
    ensures
        conns_view(final(conns)@) == fan_out_model(conns_view(old(conns)@), msg@, skip),
{
    let n = conns.len();
    let mut i: usize = 0;
    while i < n
        invariant
            n == conns@.len(),
            i <= n,
            forall|k: int| 0 <= k < conns@.len() ==> (#[trigger] conns@[k]@).wf(),
            forall|k: int|
                0 <= k < i ==> (#[trigger] conns@[k]@) == deliver_if_model(
                    old(conns)@[k]@,
                    msg@,
                    skip,
                ),
            forall|k: int| i <= k < n ==> (#[trigger] conns@[k]) == old(conns)@[k],
        decreases n - i,
    {
        let deliver = conns[i].state == ConnState::Active && (match skip {
            Some(s) => conns[i].instance_id != s,
            None => true,
        });
        if deliver {
            let m = dup_message(msg);
            let c = &mut conns[i];
            c.deliver(m);
        }
        i += 1;
    }
    proof {
        assert(conns_view(conns@) =~= fan_out_model(conns_view(old(conns)@), msg@, skip));
    }
}

// ---------------------------------------------------------------------------
// Room construction and roster lifecycle.
// ---------------------------------------------------------------------------
impl ChatRoom {
    /// A fresh room: empty rosters, no connections, membership load pending,
    /// sender-echo disabled until configured otherwise.
    pub fn new(id: u64) -> (r: ChatRoom)
        ensures
            r.wf(),
            r@ == empty_room_model(id),
    {
        let r = ChatRoom {
            id,
            roster: RosterState::Pending,
            members: Vec::new(),
            active: Vec::new(),
            conns: Vec::new(),
            next_instance: 0,
            sender_echo: false,
        };
        proof {
            assert(r@.members =~= Set::<u64>::empty());
            assert(r@.active =~= Set::<u64>::empty());
            assert(r@.conns =~= Seq::<ConnModel>::empty());
            assert(r@ =~= empty_room_model(id));
        }
        r
    }

    /// Configures whether a publisher's own connection receives its messages
    /// back. Disabled by default.
    pub fn set_sender_echo(&mut self, on: bool)
        requires
            old(self).wf(),
        ensures
            final(self).wf(),
            final(self)@ == (RoomModel { sender_echo: on, ..old(self)@ }),
    {
        self.sender_echo = on;
        proof {
            assert(self@ =~= (RoomModel { sender_echo: on, ..old(self)@ }));
        }
    }

    /// Applies the roster delivered by the persistence collaborator. While the
    /// load was pending the loaded roster becomes the authoritative membership
    /// and the room becomes `Ready`; a result arriving after the roster is
    /// already settled changes nothing.
    pub fn apply_roster(&mut self, roster: &Vec<u64>)
        requires
            old(self).wf(),
        ensures
            final(self).wf(),
            old(self)@.roster == RosterState::Pending ==> final(self)@ == (RoomModel {
                roster: RosterState::Ready,
                members: roster@.to_set(),
                ..old(self)@
            }),
            old(self)@.roster != RosterState::Pending ==> final(self)@ == old(self)@,
    {
        if self.roster == RosterState::Pending {
            self.members = dedup_ids(roster);
            self.roster = RosterState::Ready;
            proof {
                assert(self@ =~= (RoomModel {
                    roster: RosterState::Ready,
                    members: roster@.to_set(),
                    ..old(self)@
                }));
                assert forall|m: u64| #[trigger] self@.active.contains(m) implies false by {
                    assert(old(self)@.active.contains(m));
                    assert(old(self)@.member_live(m));
                }
                assert(self@.active.subset_of(self@.members));
            }
        } else {
            proof {
                assert(self@ =~= old(self)@);
            }
        }
    }

    /// Records that the roster load failed or timed out: a pending room fails
    /// open as `Unavailable`, so attach attempts are rejected with
    /// `StorageUnavailable` instead of being served from unknown membership.
    /// On a settled room this is a no-op.
    pub fn roster_load_failed(&mut self)
        requires
            old(self).wf(),
        ensures
            final(self).wf(),
            old(self)@.roster == RosterState::Pending ==> final(self)@ == (RoomModel {
                roster: RosterState::Unavailable,
                ..old(self)@
            }),
            old(self)@.roster != RosterState::Pending ==> final(self)@ == old(self)@,
    {
        if self.roster == RosterState::Pending {
            self.roster = RosterState::Unavailable;
            proof {
                assert(self@ =~= (RoomModel { roster: RosterState::Unavailable, ..old(self)@ }));
            }
        } else {
            proof {
                assert(self@ =~= old(self)@);
            }
        }
    }

    /// Adds `member` to the membership roster. Adding a present member is a
    /// no-op at the set level; presence is never touched by this operation.
    pub fn add_member(&mut self, member: u64)
        requires
            old(self).wf(),
        ensures
            final(self).wf(),
            final(self)@ == (RoomModel {
                members: old(self)@.members.insert(member),
                ..old(self)@
            }),
    {
        if !vec_contains(&self.members, member) {
            proof {
                lemma_to_set_push(self.members@, member);
            }
            self.members.push(member);
            proof {
                assert(self@ =~= (RoomModel {
                    members: old(self)@.members.insert(member),
                    ..old(self)@
                }));
            }
        } else {
            proof {
                assert(old(self)@.members.contains(member));
                assert(old(self)@.members.insert(member) =~= old(self)@.members);
                assert(self@ =~= (RoomModel {
                    members: old(self)@.members.insert(member),
                    ..old(self)@
                }));
            }
        }
    }

    /// Attaches a connection in `Connecting` state to this room: the only
    /// path by which `active` grows. The attach is rejected with
    /// `StorageUnavailable` while the roster is not authoritative, and with
    /// `NotAMember` when the connection's member is not on the roster; a
    /// rejected attach leaves the room untouched and the caller closes the
    /// connection. An accepted attach assigns the next instance id, announces
    /// the member's presence to the connections already active (the newcomer
    /// hears nothing about itself), registers the connection as `Active`, and
    /// adds the member to `active` (a no-op at the set level when another of
    /// the member's connections is already live).
    pub fn connection_attach(&mut self, conn: Connection) -> (r: Result<u64, ChatError>)
        requires
            old(self).wf(),
            conn@.wf(),
            conn@.state == ConnState::Connecting,
            conn@.outbound == Seq::<MessageModel>::empty(),
            old(self)@.next_instance < u64::MAX,
        ensures
            final(self).wf(),
            old(self)@.roster != RosterState::Ready ==> r == Result::<u64, ChatError>::Err(
                ChatError::StorageUnavailable,
            ) && final(self)@ == old(self)@,
            old(self)@.roster == RosterState::Ready && !old(self)@.members.contains(
                conn@.member_id,
            ) ==> r == Result::<u64, ChatError>::Err(ChatError::NotAMember) && final(self)@ == old(
                self,
            )@,
            old(self)@.roster == RosterState::Ready && old(self)@.members.contains(conn@.member_id)
                ==> r == Result::<u64, ChatError>::Ok(old(self)@.next_instance) && final(self)@
                == attach_ok_model(old(self)@, conn@),
    {
        let ghost conn0 = conn@;
        if self.roster != RosterState::Ready {
            return Err(ChatError::StorageUnavailable);
        }
        if !vec_contains(&self.members, conn.member_id) {
            return Err(ChatError::NotAMember);
        }
        let member = conn.member_id;
        let instance = self.next_instance;
        self.next_instance = self.next_instance + 1;
        let note = Message::presence_joined(member);
        proof {
            lemma_fan_out_preserves(
                conns_view(old(self).conns@),
                presence_joined_model(member),
                None,
            );
            assert forall|i: int| 0 <= i < self.conns@.len() implies (
            #[trigger] self.conns@[i]@).wf() by {
                assert(old(self)@.conns[i].wf());
            };
        }
        fan_out(&mut self.conns, &note, None);
        let ghost mid = conns_view(self.conns@);
        let mut conn = conn;
        conn.instance_id = instance;
        conn.mark_active();
        let already_active = vec_contains(&self.active, member);
        if !already_active {
            proof {
                lemma_to_set_push(self.active@, member);
            }
            self.active.push(member);
        }
        let ghost cfin = conn@;
        self.conns.push(conn);
        proof {
            let oldm = old(self)@;
            let cm = ConnModel {
                instance_id: oldm.next_instance,
                state: ConnState::Active,
                ..conn0
            };
            assert(cfin =~= cm);
            assert(conns_view(self.conns@) =~= mid.push(cfin));
            if already_active {
                assert(oldm.active.contains(member));
                assert(self@.active =~= oldm.active.insert(member));
            }
            assert(self@ =~= attach_ok_model(oldm, conn0));
            let newm = self@;
            // Invariant: instance ids stay unique and below the counter.
            assert(newm.conns[newm.conns.len() - 1] == cfin);
            assert forall|i: int, j: int| 0 <= i < j < newm.conns.len() implies (
            #[trigger] newm.conns[i]).instance_id != (#[trigger] newm.conns[j]).instance_id by {
                if j < newm.conns.len() - 1 {
                    assert(oldm.conns[i].instance_id != oldm.conns[j].instance_id);
                } else {
                    assert(oldm.conns[i].instance_id < oldm.next_instance);
                }
            };
            assert forall|i: int| 0 <= i < newm.conns.len() implies (#[trigger] newm.conns[i]).wf()
                && newm.conns[i].state != ConnState::Connecting && newm.conns[i].instance_id
                < newm.next_instance by {
                if i < newm.conns.len() - 1 {
                    assert(oldm.conns[i].wf());
                }
            };
            // Invariant: presence matches live connections.
            assert forall|m: u64| #[trigger] newm.active.contains(m) implies newm.member_live(
                m,
            ) by {
                if m == member {
                    assert(newm.conns[newm.conns.len() - 1].member_id == m);
                    assert(newm.conns[newm.conns.len() - 1].live());
                } else {
                    assert(oldm.active.contains(m));
                    assert(oldm.member_live(m));
                    let i = choose|i: int|
                        0 <= i < oldm.conns.len() && (#[trigger] oldm.conns[i]).member_id == m
                            && oldm.conns[i].live();
                    assert(newm.conns[i].member_id == m && newm.conns[i].live());
                }
            };
            assert forall|m: u64| newm.member_live(m) implies #[trigger] newm.active.contains(
                m,
            ) by {
                let i = choose|i: int|
                    0 <= i < newm.conns.len() && (#[trigger] newm.conns[i]).member_id == m
                        && newm.conns[i].live();
                if i == newm.conns.len() - 1 {
                    assert(m == member);
                } else {
                    assert(oldm.conns[i].member_id == m && oldm.conns[i].live());
                    assert(oldm.member_live(m));
                    assert(oldm.active.contains(m));
                }
            };
            assert(newm.active.subset_of(newm.members));
        }
        Ok(instance)
    }

    /// Asks the connection under `instance` to drain: it stops accepting
    /// submissions while its queued frames are flushed. Only an `Active`
    /// connection changes; the member stays in `active` until the connection
    /// is detached.
    pub fn connection_begin_drain(&mut self, instance: u64)
        requires
            old(self).wf(),
        ensures
            final(self).wf(),
            final(self)@ == (RoomModel {
                conns: drain_model(old(self)@.conns, instance),
                ..old(self)@
            }),
    {
        let oldm: Ghost<RoomModel> = Ghost(self@);
        let found = find_conn(&self.conns, instance);
        let mut changed = false;
        if let Some(idx) = found {
            if self.conns[idx].state == ConnState::Active {
                let c = &mut self.conns[idx];
                c.begin_drain();
                changed = true;
            }
        }
        proof {
            let om = oldm@;
            if changed {
                let idx = found.unwrap() as int;
                assert forall|k: int| 0 <= k < om.conns.len() && k != idx implies (
                #[trigger] om.conns[k]).instance_id != instance by {
                    if k < idx {
                        assert(om.conns[k].instance_id != om.conns[idx].instance_id);
                    } else {
                        assert(om.conns[idx].instance_id != om.conns[k].instance_id);
                    }
                };
                assert(conns_view(self.conns@) =~= drain_model(om.conns, instance));
            } else {
                assert forall|k: int| 0 <= k < om.conns.len() implies #[trigger] drain_model(
                    om.conns,
                    instance,
                )[k] == om.conns[k] by {
                    if found is Some {
                        let idx = found.unwrap() as int;
                        if k != idx {
                            if k < idx {
                                assert(om.conns[k].instance_id != om.conns[idx].instance_id);
                            } else {
                                assert(om.conns[idx].instance_id != om.conns[k].instance_id);
                            }
                        }
                    }
                };
                assert(conns_view(self.conns@) =~= drain_model(om.conns, instance));
            }
            let newm = self@;
            assert(newm =~= (RoomModel { conns: drain_model(om.conns, instance), ..om }));
            assert forall|i: int| 0 <= i < newm.conns.len() implies (#[trigger] newm.conns[i]).wf()
                && newm.conns[i].state != ConnState::Connecting && newm.conns[i].instance_id
                < newm.next_instance && newm.conns[i].member_id == om.conns[i].member_id
                && newm.conns[i].live() == om.conns[i].live() && newm.conns[i].instance_id
                == om.conns[i].instance_id by {
                assert(om.conns[i].wf());
            };
            lemma_live_pointwise(om.conns, newm.conns);
        }
    }

    /// Detaches the connection under `instance`: it is closed and removed
    /// from fan-out; when it was its member's last live connection to this
    /// room, the member leaves `active` and the remaining active connections
    /// hear a presence frame. Detaching an unknown or already-closed
    /// connection is a no-op, never an error, so racing duplicate close
    /// events are harmless.
    pub fn connection_detach(&mut self, instance: u64)
        requires
            old(self).wf(),
        ensures
            final(self).wf(),
            final(self)@ == detach_model(old(self)@, instance),
    {
        let found = find_conn(&self.conns, instance);
        let idx = match found {
            None => {
                proof {
                    assert(!old(self)@.has_conn(instance));
                }
                return ;
            },
            Some(i) => i,
        };
        proof {
            lemma_conn_index_unique(old(self)@, idx as int, instance);
        }
        if self.conns[idx].state == ConnState::Closed {
            proof {
                assert(!old(self)@.conn_at(instance).live());
            }
            return ;
        }
        let member = self.conns[idx].member_id;
        let c = &mut self.conns[idx];
        c.mark_closed();
        let ghost om = old(self)@;
        let ghost closed = om.conns.update(
            idx as int,
            ConnModel { state: ConnState::Closed, ..om.conns[idx as int] },
        );
        proof {
            assert(conns_view(self.conns@) =~= closed);
        }
        let still = member_has_live(&self.conns, member);
        if still {
            proof {
                assert(self@ =~= (RoomModel { conns: closed, ..om }));
                assert(self@ == detach_model(om, instance));
                let newm = self@;
                assert forall|i: int| 0 <= i < newm.conns.len() implies (
                #[trigger] newm.conns[i]).wf() && newm.conns[i].state != ConnState::Connecting
                    && newm.conns[i].instance_id < newm.next_instance by {
                    assert(om.conns[i].wf());
                };
                assert forall|m: u64| #[trigger] newm.active.contains(m) implies newm.member_live(
                    m,
                ) by {
                    if m == member {
                        assert(seq_member_live(closed, member));
                    } else {
                        assert(om.member_live(m));
                        let i = choose|i: int|
                            0 <= i < om.conns.len() && (#[trigger] om.conns[i]).member_id == m
                                && om.conns[i].live();
                        assert(i != idx as int);
                        assert(newm.conns[i].member_id == m && newm.conns[i].live());
                    }
                };
                assert forall|m: u64| newm.member_live(m) implies #[trigger] newm.active.contains(
                    m,
                ) by {
                    let i = choose|i: int|
                        0 <= i < newm.conns.len() && (#[trigger] newm.conns[i]).member_id == m
                            && newm.conns[i].live();
                    if i == idx as int {
                        assert(false);
                    } else {
                        assert(om.conns[i].member_id == m && om.conns[i].live());
                        assert(om.active.contains(m));
                    }
                };
            }
        } else {
            vec_remove_value(&mut self.active, member);
            let note = Message::presence_left(member);
            proof {
                lemma_fan_out_preserves(closed, presence_left_model(member), None);
                assert forall|i: int| 0 <= i < self.conns@.len() implies (
                #[trigger] self.conns@[i]@).wf() by {
                    assert(closed[i].wf() || om.conns[i].wf());
                    assert(self.conns@[i]@ == closed[i]);
                };
            }
            fan_out(&mut self.conns, &note, None);
            proof {
                let fanned = fan_out_model(closed, presence_left_model(member), None);
                assert(conns_view(self.conns@) == fanned);
                assert(self@ =~= (RoomModel {
                    conns: fanned,
                    active: om.active.remove(member),
                    ..om
                }));
                assert(self@ == detach_model(om, instance));
                let newm = self@;
                assert forall|i: int| 0 <= i < newm.conns.len() implies (
                #[trigger] newm.conns[i]).wf() && newm.conns[i].state != ConnState::Connecting
                    && newm.conns[i].instance_id < newm.next_instance && newm.conns[i].member_id
                    == closed[i].member_id && newm.conns[i].live() == closed[i].live() by {
                    assert(om.conns[i].wf());
                    assert(closed[i].wf());
                };
                lemma_live_pointwise(closed, newm.conns);
                assert forall|m: u64| #[trigger] newm.active.contains(m) implies newm.member_live(
                    m,
                ) by {
                    assert(m != member);
                    assert(om.active.contains(m));
                    assert(om.member_live(m));
                    let i = choose|i: int|
                        0 <= i < om.conns.len() && (#[trigger] om.conns[i]).member_id == m
                            && om.conns[i].live();
                    assert(i != idx as int);
                    assert(closed[i].member_id == m && closed[i].live());
                    assert(seq_member_live(closed, m));
                };
                assert forall|m: u64| newm.member_live(m) implies #[trigger] newm.active.contains(
                    m,
                ) by {
                    assert(seq_member_live(closed, m));
                    let i = choose|i: int|
                        0 <= i < closed.len() && (#[trigger] closed[i]).member_id == m
                            && closed[i].live();
                    assert(m != member);
                    assert(i != idx as int);
                    assert(om.conns[i].member_id == m && om.conns[i].live());
                    assert(om.active.contains(m));
                };
                assert(newm.active.subset_of(newm.members));
            }
        }
    }

    /// Hands the next queued outbound frame of the connection under
    /// `instance` to the transport, oldest first: the delivery side of the
    /// engine, also used to flush a draining connection. Returns `None`, and
    /// changes nothing, when the connection is unknown or its queue is empty.
    pub fn take_delivery(&mut self, instance: u64) -> (r: Option<Message>)
        requires
            old(self).wf(),
        ensures
            final(self).wf(),
            !old(self)@.has_conn(instance) ==> r is None && final(self)@ == old(self)@,
            old(self)@.has_conn(instance) && old(self)@.conn_at(instance).outbound.len() == 0
                ==> r is None && final(self)@ == old(self)@,
            old(self)@.has_conn(instance) && old(self)@.conn_at(instance).outbound.len() > 0 ==> {
                &&& r matches Some(m) && m@ == old(self)@.conn_at(instance).outbound[0]
                &&& final(self)@ == (RoomModel {
                    conns: old(self)@.conns.update(
                        old(self)@.conn_index(instance),
                        ConnModel {
                            outbound: old(self)@.conn_at(instance).outbound.drop_first(),
                            ..old(self)@.conn_at(instance)
                        },
                    ),
                    ..old(self)@
                })
            },
    {
        let found = find_conn(&self.conns, instance);
        let idx = match found {
            None => {
                proof {
                    assert(!old(self)@.has_conn(instance));
                }
                return None;
            },
            Some(i) => i,
        };
        proof {
            lemma_conn_index_unique(old(self)@, idx as int, instance);
        }
        let c = &mut self.conns[idx];
        let r = c.pop_outbound();
        proof {
            let om = old(self)@;
            if om.conn_at(instance).outbound.len() == 0 {
                assert(conns_view(self.conns@) =~= om.conns);
                assert(self@ =~= om);
            } else {
                let upd = om.conns.update(
                    idx as int,
                    ConnModel {
                        outbound: om.conn_at(instance).outbound.drop_first(),
                        ..om.conn_at(instance)
                    },
                );
                assert(conns_view(self.conns@) =~= upd);
                assert(self@ =~= (RoomModel { conns: upd, ..om }));
                let newm = self@;
                assert forall|i: int| 0 <= i < newm.conns.len() implies (
                #[trigger] newm.conns[i]).wf() && newm.conns[i].state != ConnState::Connecting
                    && newm.conns[i].instance_id < newm.next_instance && newm.conns[i].member_id
                    == om.conns[i].member_id && newm.conns[i].live() == om.conns[i].live() by {
                    assert(om.conns[i].wf());
                };
                lemma_live_pointwise(om.conns, newm.conns);
            }
        }
        r
    }

    /// Removes `member` from the membership roster. Membership revocation
    /// implies presence revocation: every live connection of the member is
    /// force-closed at once, the member leaves `active`, and — when the member
    /// was active — the connections that remain active hear a presence frame.
    /// Removing an absent or inactive member touches nothing else.
    pub fn remove_member(&mut self, member: u64)
        requires
            old(self).wf(),
        ensures
            final(self).wf(),
            final(self)@ == (RoomModel {
                members: old(self)@.members.remove(member),
                active: old(self)@.active.remove(member),
                conns: if old(self)@.active.contains(member) {
                    fan_out_model(
                        close_member_model(old(self)@.conns, member),
                        presence_left_model(member),
                        None,
                    )
                } else {
                    old(self)@.conns
                },
                ..old(self)@
            }),
            !final(self)@.active.contains(member),
            forall|i: int|
                0 <= i < final(self)@.conns.len() && (#[trigger] final(self)@.conns[i]).member_id
                    == member ==> final(self)@.conns[i].state == ConnState::Closed,
    {
        let ghost om = old(self)@;
        vec_remove_value(&mut self.members, member);
        let was_active = vec_contains(&self.active, member);
        if was_active {
            proof {
                assert forall|i: int| 0 <= i < self.conns@.len() implies (
                #[trigger] self.conns@[i]@).live() || self.conns@[i]@.state == ConnState::Closed by {
                    assert(om.conns[i].state != ConnState::Connecting);
                    assert(self.conns@[i]@ == om.conns[i]);
                };
            }
            close_member(&mut self.conns, member);
            let ghost closedc = close_member_model(om.conns, member);
            proof {
                assert(conns_view(self.conns@) == closedc);
            }
            vec_remove_value(&mut self.active, member);
            let note = Message::presence_left(member);
            proof {
                lemma_fan_out_preserves(closedc, presence_left_model(member), None);
                assert forall|i: int| 0 <= i < self.conns@.len() implies (
                #[trigger] self.conns@[i]@).wf() by {
                    assert(om.conns[i].wf());
                    assert(self.conns@[i]@ == closedc[i]);
                };
            }
            fan_out(&mut self.conns, &note, None);
            proof {
                let fanned = fan_out_model(closedc, presence_left_model(member), None);
                assert(conns_view(self.conns@) == fanned);
                assert(self@ =~= (RoomModel {
                    members: om.members.remove(member),
                    active: om.active.remove(member),
                    conns: fanned,
                    ..om
                }));
                let newm = self@;
                assert forall|i: int| 0 <= i < newm.conns.len() implies (
                #[trigger] newm.conns[i]).wf() && newm.conns[i].state != ConnState::Connecting
                    && newm.conns[i].instance_id < newm.next_instance && newm.conns[i].instance_id
                    == om.conns[i].instance_id && newm.conns[i].member_id == om.conns[i].member_id
                    && newm.conns[i].live() == closedc[i].live() && (newm.conns[i].member_id
                    == member ==> newm.conns[i].state == ConnState::Closed) by {
                    assert(om.conns[i].wf());
                    assert(closedc[i].wf());
                    assert(om.conns[i].state != ConnState::Connecting);
                };
                assert forall|m: u64| #[trigger] newm.active.contains(m) implies newm.member_live(
                    m,
                ) by {
                    assert(m != member);
                    assert(om.active.contains(m));
                    assert(om.member_live(m));
                    let i = choose|i: int|
                        0 <= i < om.conns.len() && (#[trigger] om.conns[i]).member_id == m
                            && om.conns[i].live();
                    assert(closedc[i].member_id == m && closedc[i].live());
                    assert(newm.conns[i].member_id == m && newm.conns[i].live());
                };
                assert forall|m: u64| newm.member_live(m) implies #[trigger] newm.active.contains(
                    m,
                ) by {
                    let i = choose|i: int|
                        0 <= i < newm.conns.len() && (#[trigger] newm.conns[i]).member_id == m
                            && newm.conns[i].live();
                    assert(closedc[i].live());
                    assert(m != member);
                    assert(om.conns[i].member_id == m && om.conns[i].live());
                    assert(om.active.contains(m));
                };
                assert forall|m: u64| #[trigger] newm.active.contains(m) implies newm
                    .members.contains(m) by {
                    assert(m != member);
                    assert(om.active.contains(m));
                    assert(om.members.contains(m));
                };
            }
        } else {
            proof {
                assert(!om.active.contains(member));
                assert(om.active.remove(member) =~= om.active);
                assert(self@ =~= (RoomModel {
                    members: om.members.remove(member),
                    active: om.active.remove(member),
                    conns: om.conns,
                    ..om
                }));
                let newm = self@;
                assert forall|m: u64| #[trigger] newm.active.contains(m) implies newm
                    .members.contains(m) by {
                    assert(om.active.contains(m));
                    assert(om.members.contains(m));
                    assert(m != member);
                };
                assert forall|i: int|
                    0 <= i < newm.conns.len() && (#[trigger] newm.conns[i]).member_id
                        == member implies newm.conns[i].state == ConnState::Closed by {
                    assert(om.conns[i].state != ConnState::Connecting);
                    if om.conns[i].live() {
                        assert(om.member_live(member));
                        assert(om.active.contains(member));
                    }
                };
            }
        }
    }

    /// Publishes `payload` to the room on behalf of the connection under
    /// `sender_instance`. An `Active` sender succeeds and the chat frame
    /// reaches every active connection (the sender's own only under
    /// sender-echo), each under the bounded drop-oldest backpressure policy,
    /// so one slow recipient never blocks the publisher or the room. A
    /// draining sender is refused with `ConnectionClosing`; a closed or
    /// unknown one with `ConnectionClosed`. A refused publish changes
    /// nothing. Delivery is at-most-once per connection active at publish
    /// time: a connection attaching later never receives the frame — replay
    /// from history is a storage concern outside this core.
    pub fn publish(&mut self, sender_instance: u64, payload: Vec<u8>) -> (r: Result<
        (),
        ChatError,
    >)
        requires
            old(self).wf(),
        ensures
            final(self).wf(),
            (!old(self)@.has_conn(sender_instance) || old(self)@.conn_at(sender_instance).state
                == ConnState::Closed) ==> r == Result::<(), ChatError>::Err(
                ChatError::ConnectionClosed,
            ) && final(self)@ == old(self)@,
            old(self)@.has_conn(sender_instance) && old(self)@.conn_at(sender_instance).state
                == ConnState::Draining ==> r == Result::<(), ChatError>::Err(
                ChatError::ConnectionClosing,
            ) && final(self)@ == old(self)@,
            old(self)@.has_conn(sender_instance) && old(self)@.conn_at(sender_instance).state
                == ConnState::Active ==> r == Result::<(), ChatError>::Ok(()) && final(self)@
                == publish_model(old(self)@, sender_instance, payload@),
    {
        let ghost om = old(self)@;
        let found = find_conn(&self.conns, sender_instance);
        let idx = match found {
            None => {
                proof {
                    assert(!om.has_conn(sender_instance));
                }
                return Err(ChatError::ConnectionClosed);
            },
            Some(i) => i,
        };
        proof {
            lemma_conn_index_unique(om, idx as int, sender_instance);
        }
        if self.conns[idx].state == ConnState::Closed {
            return Err(ChatError::ConnectionClosed);
        }
        if self.conns[idx].state == ConnState::Draining {
            return Err(ChatError::ConnectionClosing);
        }
        proof {
            assert(om.conns[idx as int].state != ConnState::Connecting);
            assert(om.conn_at(sender_instance).state == ConnState::Active);
        }
        let sender_member = self.conns[idx].member_id;
        let skip = if self.sender_echo {
            None
        } else {
            Some(sender_instance)
        };
        let msg = Message::chat(sender_member, payload);
        proof {
            lemma_fan_out_preserves(om.conns, chat_model(sender_member, msg.payload@), skip);
            assert forall|i: int| 0 <= i < self.conns@.len() implies (
            #[trigger] self.conns@[i]@).wf() by {
                assert(om.conns[i].wf());
            };
        }
        fan_out(&mut self.conns, &msg, skip);
        proof {
            assert(self@ =~= publish_model(om, sender_instance, msg.payload@));
            let newm = self@;
            assert forall|i: int| 0 <= i < newm.conns.len() implies (#[trigger] newm.conns[i]).wf()
                && newm.conns[i].state != ConnState::Connecting && newm.conns[i].instance_id
                < newm.next_instance && newm.conns[i].instance_id == om.conns[i].instance_id
                && newm.conns[i].member_id == om.conns[i].member_id && newm.conns[i].live()
                == om.conns[i].live() by {
                assert(om.conns[i].wf());
            };
            lemma_live_pointwise(om.conns, newm.conns);
        }
        Ok(())
    }

    /// The room id this room was created under.
    pub fn room_id(&self) -> (r: u64)
        ensures
            r == self@.id,
    {
        self.id
    }

    /// Whether the roster is pending, authoritative, or failed.
    pub fn roster_state(&self) -> (r: RosterState)
        ensures
            r == self@.roster,
    {
        self.roster
    }

    /// Whether a publisher's own connection receives its messages back.
    pub fn echo_enabled(&self) -> (r: bool)
        ensures
            r == self@.sender_echo,
    {
        self.sender_echo
    }

    /// Whether `member` is on the membership roster.
    pub fn is_member(&self, member: u64) -> (b: bool)
        ensures
            b == self@.members.contains(member),
    {
        vec_contains(&self.members, member)
    }

    /// Whether `member` currently has at least one live connection here.
    pub fn is_active(&self, member: u64) -> (b: bool)
        ensures
            b == self@.active.contains(member),
    {
        vec_contains(&self.active, member)
    }

    /// How many members are on the roster.
    pub fn member_count(&self) -> (n: usize)
        requires
            self.wf(),
        ensures
            n == self@.members.len(),
    {
        proof {
            self.members@.unique_seq_to_set();
        }
        self.members.len()
    }

    /// How many members are currently active.
    pub fn active_count(&self) -> (n: usize)
        requires
            self.wf(),
        ensures
            n == self@.active.len(),
    {
        proof {
            self.active@.unique_seq_to_set();
        }
        self.active.len()
    }

    /// The lifecycle state of the connection under `instance`, or `None` when
    /// no such connection was ever attached here.
    pub fn conn_state(&self, instance: u64) -> (r: Option<ConnState>)
        requires
            self.wf(),
        ensures
            self@.has_conn(instance) ==> r == Some(self@.conn_at(instance).state),
            !self@.has_conn(instance) ==> r is None,
    {
        let found = find_conn(&self.conns, instance);
        match found {
            None => None,
            Some(idx) => {
                proof {
                    lemma_conn_index_unique(self@, idx as int, instance);
                }
                Some(self.conns[idx].state)
            },
        }
    }

    /// Whether the connection under `instance` has been marked lagging by the
    /// backpressure policy, for diagnostics.
    pub fn conn_is_lagging(&self, instance: u64) -> (r: Option<bool>)
        requires
            self.wf(),
        ensures
            self@.has_conn(instance) ==> r == Some(self@.conn_at(instance).lagging),
            !self@.has_conn(instance) ==> r is None,
    {
        let found = find_conn(&self.conns, instance);
        match found {
            None => None,
            Some(idx) => {
                proof {
                    lemma_conn_index_unique(self@, idx as int, instance);
                }
                Some(self.conns[idx].lagging)
            },
        }
    }

    /// How many frames the backpressure policy has discarded for the
    /// connection under `instance`, for diagnostics.
    pub fn conn_dropped(&self, instance: u64) -> (r: Option<u64>)
        requires
            self.wf(),
        ensures
            self@.has_conn(instance) ==> r == Some(self@.conn_at(instance).dropped),
            !self@.has_conn(instance) ==> r is None,
    {
        let found = find_conn(&self.conns, instance);
        match found {
            None => None,
            Some(idx) => {
                proof {
                    lemma_conn_index_unique(self@, idx as int, instance);
                }
                Some(self.conns[idx].dropped)
            },
        }
    }

    /// How many frames are queued for the connection under `instance`.
    pub fn conn_queue_len(&self, instance: u64) -> (r: Option<usize>)
        requires
            self.wf(),
        ensures
            self@.has_conn(instance) ==> r == Some(self@.conn_at(instance).outbound.len() as usize),
            !self@.has_conn(instance) ==> r is None,
    {
        let found = find_conn(&self.conns, instance);
        match found {
            None => None,
            Some(idx) => {
                proof {
                    lemma_conn_index_unique(self@, idx as int, instance);
                }
                Some(self.conns[idx].outbound.len())
            },
        }
    }
}

// ---------------------------------------------------------------------------
// Laws of the room.
// ---------------------------------------------------------------------------
/// Presence is contained in membership: in every well-formed room state,
/// `active` is a subset of `members`. Every operation of this module requires
/// and re-establishes well-formedness, so the containment holds at each
/// observable instant.
pub proof fn lemma_active_subset_of_members(r: RoomModel)
    requires
        r.inv(),
    ensures
        r.active.subset_of(r.members),
{
}

/// Detach is idempotent: detaching the same connection twice leaves exactly
/// the room state that one detach leaves, because the first detach leaves the
/// connection closed and detaching a closed connection is the identity.
pub proof fn lemma_detach_idempotent(r: RoomModel, instance: u64)
    requires
        r.inv(),
    ensures
        detach_model(detach_model(r, instance), instance) == detach_model(r, instance),
{
    let r1 = detach_model(r, instance);
    if r.has_conn(instance) && r.conn_at(instance).live() {
        let i = r.conn_index(instance);
        assert(0 <= i < r.conns.len() && r.conns[i].instance_id == instance);
        let m = r.conns[i].member_id;
        let closed = r.conns.update(i, ConnModel { state: ConnState::Closed, ..r.conns[i] });
        lemma_fan_out_preserves(closed, presence_left_model(m), None);
        assert(r1.conns.len() == r.conns.len());
        assert forall|j: int| 0 <= j < r1.conns.len() implies (#[trigger] r1.conns[j]).instance_id
            == r.conns[j].instance_id && r1.conns[j].state == closed[j].state by {
            if seq_member_live(closed, m) {
                assert(r1.conns == closed);
            }
        };
        assert(r1.conns[i].instance_id == instance);
        assert(r1.has_conn(instance));
        let j = r1.conn_index(instance);
        assert(0 <= j < r1.conns.len() && r1.conns[j].instance_id == instance);
        if j != i {
            assert(r.conns[j].instance_id == instance);
            if j < i {
                assert(r.conns[j].instance_id != r.conns[i].instance_id);
            } else {
                assert(r.conns[i].instance_id != r.conns[j].instance_id);
            }
        }
        assert(r1.conn_at(instance).state == ConnState::Closed);
        assert(!r1.conn_at(instance).live());
        assert(detach_model(r1, instance) == r1);
    } else {
        assert(r1 == r);
    }
}

/// Per-sender FIFO: when the same connection publishes two frames in order,
/// every recipient of both holds them adjacent at the tail of its queue in
/// publish order afterward — a later frame never overtakes an earlier one,
/// and with a queue bound of at least 2 the drop-oldest policy cannot discard
/// the earlier of the two.
pub proof fn lemma_publish_fifo(
    r: RoomModel,
    sender_instance: u64,
    payload_a: Seq<u8>,
    payload_b: Seq<u8>,
    i: int,
)
    requires
        r.inv(),
        r.has_conn(sender_instance),
        r.conn_at(sender_instance).state == ConnState::Active,
        0 <= i < r.conns.len(),
        r.conns[i].state == ConnState::Active,
        r.conns[i].capacity >= 2,
        publish_skip(r, sender_instance) != Some(r.conns[i].instance_id),
    ensures
        ({
            let sender = r.conn_at(sender_instance).member_id;
            let r2 = publish_model(publish_model(r, sender_instance, payload_a), sender_instance, payload_b);
            let q = r2.conns[i].outbound;
            &&& q.len() >= 2
            &&& q[q.len() - 1] == chat_model(sender, payload_b)
            &&& q[q.len() - 2] == chat_model(sender, payload_a)
        }),
{
    let sender = r.conn_at(sender_instance).member_id;
    let si = r.conn_index(sender_instance);
    let skip = publish_skip(r, sender_instance);
    let m1 = chat_model(sender, payload_a);
    let r1 = publish_model(r, sender_instance, payload_a);
    lemma_fan_out_preserves(r.conns, m1, skip);
    assert(r1.conns[si].instance_id == sender_instance);
    assert(r1.has_conn(sender_instance));
    let sj = r1.conn_index(sender_instance);
    assert(0 <= sj < r1.conns.len() && r1.conns[sj].instance_id == sender_instance);
    if sj != si {
        assert(r.conns[sj].instance_id == sender_instance);
        if sj < si {
            assert(r.conns[sj].instance_id != r.conns[si].instance_id);
        } else {
            assert(r.conns[si].instance_id != r.conns[sj].instance_id);
        }
    }
    assert(r1.conn_at(sender_instance).member_id == sender);
    assert(publish_skip(r1, sender_instance) == skip);
    let m2 = chat_model(sender, payload_b);
    let r2 = publish_model(r1, sender_instance, payload_b);
    lemma_fan_out_preserves(r1.conns, m2, skip);
    assert(r1.conns[i] == deliver_model(r.conns[i], m1));
    assert(r1.conns[i].state == ConnState::Active);
    assert(r1.conns[i].instance_id == r.conns[i].instance_id);
    assert(r2.conns[i] == deliver_model(r1.conns[i], m2));
    assert(r.conns[i].wf());
    crate::connection::lemma_deliver_fifo(r.conns[i], m1, m2);
}

/// Lifecycle safety of the room's operations: a detach, a drain request, or
/// a membership revocation moves every attached connection's state only
/// along the allowed lifecycle relation — staying put or moving toward the
/// terminal `Closed` — and a publish changes no state at all. Together with
/// `lemma_lifecycle_monotone`, any run of room operations drives each
/// connection through one forward pass of
/// `Connecting -> {Active | Closed} -> [Draining] -> Closed`.
pub proof fn lemma_room_ops_follow_lifecycle(
    r: RoomModel,
    instance: u64,
    member: u64,
    payload: Seq<u8>,
)
    requires
        r.inv(),
    ensures
        detach_model(r, instance).conns.len() == r.conns.len(),
        forall|i: int|
            0 <= i < r.conns.len() ==> step_allowed(
                r.conns[i].state,
                #[trigger] detach_model(r, instance).conns[i].state,
            ),
        forall|i: int|
            0 <= i < r.conns.len() ==> step_allowed(
                r.conns[i].state,
                #[trigger] drain_model(r.conns, instance)[i].state,
            ),
        forall|i: int|
            0 <= i < r.conns.len() ==> step_allowed(
                r.conns[i].state,
                #[trigger] close_member_model(r.conns, member)[i].state,
            ),
        forall|i: int|
            0 <= i < r.conns.len() ==> #[trigger] publish_model(
                r,
                instance,
                payload,
            ).conns[i].state == r.conns[i].state,
{
    let d = detach_model(r, instance);
    if r.has_conn(instance) && r.conn_at(instance).live() {
        let idx = r.conn_index(instance);
        assert(0 <= idx < r.conns.len() && r.conns[idx].instance_id == instance);
        let m = r.conns[idx].member_id;
        let closed = r.conns.update(idx, ConnModel { state: ConnState::Closed, ..r.conns[idx] });
        lemma_fan_out_preserves(closed, presence_left_model(m), None);
        assert forall|i: int| 0 <= i < r.conns.len() implies step_allowed(
            r.conns[i].state,
            #[trigger] d.conns[i].state,
        ) by {
            if seq_member_live(closed, m) {
                assert(d.conns == closed);
            }
            assert(d.conns[i].state == closed[i].state);
        };
    }
    lemma_fan_out_preserves(
        r.conns,
        chat_model(r.conn_at(instance).member_id, payload),
        publish_skip(r, instance),
    );
}

/// Bounded backpressure: one publish grows no recipient's queue past its
/// bound, discards at most one frame per recipient (exactly one when the
/// queue was full), and any discard marks the recipient lagging. The
/// publisher is never blocked on a slow recipient.
pub proof fn lemma_publish_bounded_drop(
    r: RoomModel,
    sender_instance: u64,
    payload: Seq<u8>,
    i: int,
)
    requires
        r.inv(),
        0 <= i < r.conns.len(),
        r.conns[i].dropped < u64::MAX,
    ensures
        ({
            let c = r.conns[i];
            let c1 = publish_model(r, sender_instance, payload).conns[i];
            &&& c1.outbound.len() <= c.capacity
            &&& c1.dropped <= c.dropped + 1
            &&& (c1.dropped == c.dropped + 1 ==> c1.lagging)
            &&& (c.outbound.len() < c.capacity ==> c1.dropped == c.dropped && c1.lagging
                == c.lagging)
        }),
{
    let c = r.conns[i];
    assert(c.wf());
    let m = chat_model(r.conn_at(sender_instance).member_id, payload);
    let skip = publish_skip(r, sender_instance);
    assert(publish_model(r, sender_instance, payload).conns[i] == deliver_if_model(c, m, skip));
}

} // verus!
