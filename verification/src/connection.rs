use vstd::prelude::*;

use crate::message::{Message, MessageModel};

verus! {

/// Lifecycle of one connection: `Connecting` until the room accepts or rejects
/// the attach, `Active` while attached and eligible to publish and receive,
/// `Draining` while the outbound queue is flushed after a leave or a forced
/// close, and `Closed`, which is terminal.
#[derive(Clone, Copy, PartialEq, Eq, Structural, Debug)]
pub enum ConnState {
    Connecting,
    Active,
    Draining,
    Closed,
}

/// Position of a state along the lifecycle; transitions never decrease it.
pub open spec fn state_rank(s: ConnState) -> nat {
    match s {
        ConnState::Connecting => 0,
        ConnState::Active => 1,
        ConnState::Draining => 2,
        ConnState::Closed => 3,
    }
}

/// The transition relation of the lifecycle. A connection may stay where it
/// is; otherwise the only edges are `Connecting -> Active` (attach accepted),
/// `Connecting -> Closed` (attach rejected), `Active -> Draining` (leave,
/// transport error, or forced close), `Active -> Closed` and
/// `Draining -> Closed`. `Closed` has no outgoing edge.
pub open spec fn step_allowed(pre: ConnState, post: ConnState) -> bool {
    ||| pre == post
    ||| (pre == ConnState::Connecting && post == ConnState::Active)
    ||| (pre == ConnState::Connecting && post == ConnState::Closed)
    ||| (pre == ConnState::Active && post == ConnState::Draining)
    ||| (pre == ConnState::Active && post == ConnState::Closed)
    ||| (pre == ConnState::Draining && post == ConnState::Closed)
}

proof fn lemma_step_rank(pre: ConnState, post: ConnState)
    requires
        step_allowed(pre, post),
    ensures
        state_rank(pre) <= state_rank(post),
        pre == ConnState::Closed ==> post == ConnState::Closed,
{
}

proof fn lemma_trace_pair(tr: Seq<ConnState>, i: int, j: int)
    requires
        forall|k: int| 0 <= k < tr.len() - 1 ==> step_allowed(#[trigger] tr[k], tr[k + 1]),
        0 <= i <= j < tr.len(),
    ensures
        state_rank(tr[i]) <= state_rank(tr[j]),
        tr[i] == ConnState::Closed ==> tr[j] == ConnState::Closed,
    decreases j - i,
{
    if i < j {
        lemma_trace_pair(tr, i, j - 1);
        assert(step_allowed(tr[j - 1], tr[j]));
        lemma_step_rank(tr[j - 1], tr[j]);
    }
}

/// Lifecycle law: along any trace whose every step is an allowed transition,
/// the state only moves forward (`Connecting`, `Active`, `Draining`, `Closed`
/// in that order, possibly skipping `Active` only toward `Closed` and skipping
/// `Draining`), and once a trace reaches the terminal state `Closed` it stays
/// there: the terminal transition is never repeated or undone.
pub proof fn lemma_lifecycle_monotone(tr: Seq<ConnState>)
    requires
        forall|k: int| 0 <= k < tr.len() - 1 ==> step_allowed(#[trigger] tr[k], tr[k + 1]),
    ensures
        forall|i: int, j: int|
            0 <= i <= j < tr.len() ==> state_rank(tr[i]) <= state_rank(tr[j]),
        forall|i: int, j: int|
            0 <= i <= j < tr.len() && tr[i] == ConnState::Closed ==> tr[j] == ConnState::Closed,
{
    assert forall|i: int, j: int| 0 <= i <= j < tr.len() implies state_rank(tr[i]) <= state_rank(
        tr[j],
    ) && (tr[i] == ConnState::Closed ==> tr[j] == ConnState::Closed) by {
        lemma_trace_pair(tr, i, j);
    }
}

/// Lifecycle law: a trace that starts at `Connecting` and follows allowed
/// steps never sees `Connecting` again once it has left it, so the whole
/// trace is one pass `Connecting -> {Active | Closed} -> [Draining] -> Closed`
/// with no transition skipped backward.
pub proof fn lemma_lifecycle_single_pass(tr: Seq<ConnState>)
    requires
        tr.len() > 0,
        tr[0] == ConnState::Connecting,
        forall|k: int| 0 <= k < tr.len() - 1 ==> step_allowed(#[trigger] tr[k], tr[k + 1]),
    ensures
        forall|i: int, j: int|
            0 <= i < j < tr.len() && tr[i] != ConnState::Connecting ==> tr[j]
                != ConnState::Connecting,
{
    lemma_lifecycle_monotone(tr);
}

/// One live duplex session, bound to one member and one room, owning a
/// bounded outbound delivery queue. `instance_id` distinguishes simultaneous
/// connections of the same member (several devices); the owning room assigns
/// it at attach time. `lagging` and `dropped` record, for diagnostics, that
/// the bounded queue overflowed and how many frames were discarded.
pub struct Connection {
    pub member_id: u64,
    pub instance_id: u64,
    pub state: ConnState,
    pub outbound: Vec<Message>,
    pub capacity: usize,
    pub lagging: bool,
    pub dropped: u64,
}

/// Mathematical image of a `Connection`.
#[verifier::ext_equal]
pub ghost struct ConnModel {
    pub member_id: u64,
    pub instance_id: u64,
    pub state: ConnState,
    pub outbound: Seq<MessageModel>,
    pub capacity: usize,
    pub lagging: bool,
    pub dropped: u64,
}

impl View for Connection {
    type V = ConnModel;

    open spec fn view(&self) -> ConnModel {
        ConnModel {
            member_id: self.member_id,
            instance_id: self.instance_id,
            state: self.state,
            outbound: self.outbound@.map_values(|m: Message| m@),
            capacity: self.capacity,
            lagging: self.lagging,
            dropped: self.dropped,
        }
    }
}

impl ConnModel {
    /// A connection counts toward presence while it is attached and not yet
    /// closed: `Active` or `Draining`.
    pub open spec fn live(self) -> bool {
        self.state == ConnState::Active || self.state == ConnState::Draining
    }

    /// The queue bound is positive and the queue never exceeds it.
    pub open spec fn wf(self) -> bool {
        &&& self.capacity >= 1
        &&& self.outbound.len() <= self.capacity
    }
}

/// Backpressure policy of the broadcast engine, one deterministic rule per
/// overflow event: when a recipient's queue is full, the oldest unsent frame
/// is discarded to make room for the new one, the connection is marked
/// lagging, and the discard is counted (saturating). The publisher is never
/// blocked on the slow recipient.
pub open spec fn deliver_model(c: ConnModel, m: MessageModel) -> ConnModel {
    if c.outbound.len() < c.capacity {
        ConnModel { outbound: c.outbound.push(m), ..c }
    } else {
        ConnModel {
            outbound: c.outbound.drop_first().push(m),
            lagging: true,
            dropped: if c.dropped == u64::MAX {
                u64::MAX
            } else {
                (c.dropped + 1) as u64
            },
            ..c
        }
    }
}

impl Connection {
    /// A fresh connection for `member_id`, in `Connecting` state with an
    /// empty outbound queue bounded by `capacity`. The room assigns
    /// `instance_id` when the connection attaches.
    pub fn new(member_id: u64, capacity: usize) -> (c: Connection)
        requires
            capacity >= 1,
        ensures
            c@ == (ConnModel {
                member_id,
                instance_id: 0,
                state: ConnState::Connecting,
                outbound: Seq::empty(),
                capacity,
                lagging: false,
                dropped: 0,
            }),
            c@.wf(),
    {
        let c = Connection {
            member_id,
            instance_id: 0,
            state: ConnState::Connecting,
            outbound: Vec::new(),
            capacity,
            lagging: false,
            dropped: 0,
        };
        proof {
            assert(c@.outbound =~= Seq::<MessageModel>::empty());
            assert(c@ =~= ConnModel {
                member_id,
                instance_id: 0,
                state: ConnState::Connecting,
                outbound: Seq::empty(),
                capacity,
                lagging: false,
                dropped: 0,
            });
        }
        c
    }

    /// Queues `m` for delivery under the drop-oldest backpressure policy.
    pub fn deliver(&mut self, m: Message)
        requires
            old(self)@.wf(),
        ensures
            final(self)@ == deliver_model(old(self)@, m@),
            final(self)@.wf(),
            step_allowed(old(self)@.state, final(self)@.state),
    {
        if self.outbound.len() < self.capacity {
            self.outbound.push(m);
            proof {
                assert(self@.outbound =~= old(self)@.outbound.push(m@));
                assert(self@ =~= deliver_model(old(self)@, m@));
            }
        } else {
            let _oldest = self.outbound.remove(0);
            self.outbound.push(m);
            self.lagging = true;
            self.dropped = if self.dropped == u64::MAX {
                u64::MAX
            } else {
                self.dropped + 1
            };
            proof {
                assert(self@.outbound =~= old(self)@.outbound.drop_first().push(m@));
                assert(self@ =~= deliver_model(old(self)@, m@));
            }
        }
    }

    /// Hands out the next queued frame, oldest first, or `None` when the
    /// queue is empty.
    pub fn pop_outbound(&mut self) -> (r: Option<Message>)
        requires
            old(self)@.wf(),
        ensures
            final(self)@.wf(),
            old(self)@.outbound.len() == 0 ==> r is None && final(self)@ == old(self)@,
            old(self)@.outbound.len() > 0 ==> {
                &&& r matches Some(m) && m@ == old(self)@.outbound[0]
                &&& final(self)@ == (ConnModel { outbound: old(self)@.outbound.drop_first(), ..old(
                    self,
                )@ })
            },
            step_allowed(old(self)@.state, final(self)@.state),
    {
        if self.outbound.len() == 0 {
            proof {
                assert(self@ =~= old(self)@);
            }
            None
        } else {
            let m = self.outbound.remove(0);
            proof {
                assert(self@.outbound =~= old(self)@.outbound.drop_first());
                assert(self@ =~= (ConnModel {
                    outbound: old(self)@.outbound.drop_first(),
                    ..old(self)@
                }));
            }
            Some(m)
        }
    }

    /// Attach accepted: the connection leaves `Connecting` for `Active`.
    pub fn mark_active(&mut self)
        requires
            old(self)@.state == ConnState::Connecting,
        ensures
            final(self)@ == (ConnModel { state: ConnState::Active, ..old(self)@ }),
            step_allowed(old(self)@.state, final(self)@.state),
    {
        self.state = ConnState::Active;
        proof {
            assert(self@ =~= (ConnModel { state: ConnState::Active, ..old(self)@ }));
        }
    }

    /// Starts the drain of an active connection: no further submissions are
    /// accepted, the queued frames are flushed best-effort. On a connection
    /// in any other state this is a no-op.
    pub fn begin_drain(&mut self)
        ensures
            old(self)@.state == ConnState::Active ==> final(self)@ == (ConnModel {
                state: ConnState::Draining,
                ..old(self)@
            }),
            old(self)@.state != ConnState::Active ==> final(self)@ == old(self)@,
            step_allowed(old(self)@.state, final(self)@.state),
    {
        if self.state == ConnState::Active {
            self.state = ConnState::Draining;
            proof {
                assert(self@ =~= (ConnModel { state: ConnState::Draining, ..old(self)@ }));
            }
        } else {
            proof {
                assert(self@ =~= old(self)@);
            }
        }
    }

    /// Moves the connection to the terminal `Closed` state, from any state.
    pub fn mark_closed(&mut self)
        ensures
            final(self)@ == (ConnModel { state: ConnState::Closed, ..old(self)@ }),
            step_allowed(old(self)@.state, final(self)@.state),
    {
        self.state = ConnState::Closed;
        proof {
            assert(self@ =~= (ConnModel { state: ConnState::Closed, ..old(self)@ }));
        }
    }
}

/// Per-recipient FIFO at the queue level: delivering `m1` and then `m2` to a
/// queue whose bound is at least 2 leaves `m1` and `m2` adjacent at the tail,
/// `m1` first — a later delivery never overtakes an earlier one, and under the
/// drop-oldest policy at most the frames older than `m1` were discarded.
pub proof fn lemma_deliver_fifo(c: ConnModel, m1: MessageModel, m2: MessageModel)
    requires
        c.wf(),
        c.capacity >= 2,
    ensures
        ({
            let c2 = deliver_model(deliver_model(c, m1), m2);
            &&& c2.outbound.len() >= 2
            &&& c2.outbound[c2.outbound.len() - 1] == m2
            &&& c2.outbound[c2.outbound.len() - 2] == m1
        }),
{
    let c1 = deliver_model(c, m1);
    assert(c1.outbound.len() >= 1);
    assert(c1.outbound[c1.outbound.len() - 1] == m1);
}

} // verus!
