//! Server-side connection decisions and the client-side resync rule: the bounded outbound queue
//! that never stalls capture, the order in which a received request is judged, and what a client
//! renders after a sequence gap.

use crate::authz::authorize_client;
use crate::event::{Event, EventBody};
use crate::method::Method;
use crate::protocol::PROTOCOL_MAJOR;
use vstd::prelude::*;

verus! {

/// Events a connection may hold before it stops accepting more.
pub const OUTBOUND_QUEUE: usize = 256;

/// Slots kept for session transitions alone.
pub const TRANSITION_RESERVE: usize = 64;

/// Slots for every other event.
pub const GENERAL_QUEUE: usize = OUTBOUND_QUEUE - TRANSITION_RESERVE;

/// Why a connection was closed. A malformed frame is recorded by its size alone.
#[derive(Debug, Clone, Copy, PartialEq, Eq, Structural)]
pub enum CloseReason {
    ClientTooSlow,
    MalformedFrame { bytes: usize },
    Unauthorized,
    PeerClosed,
    Shutdown,
}

/// Where a connection stands.
#[derive(Debug, Clone, Copy, PartialEq, Eq, Structural)]
pub enum ConnectionState {
    Handshaking,
    Open,
    Closed(CloseReason),
}

/// A session transition's cause as the wire sees it.
#[derive(Debug, Clone, PartialEq, Eq)]
pub struct TransitionCause {
    pub kind: String,
    pub refs: Vec<String>,
}

/// A session transition as the wire sees it.
#[derive(Debug, Clone, PartialEq, Eq)]
pub struct Transition {
    pub from: String,
    pub to: String,
    pub cause: TransitionCause,
}

/// What a client does with each frame it reads.
#[derive(Debug, Clone, PartialEq, Eq)]
pub enum ClientAction {
    Rendered { seq: u64 },
    /// A sequence gap: the client must discard local state and ask for a snapshot.
    ResnapshotRequired { expected: u64, got: u64 },
    /// Received while a re-snapshot is pending: not rendered.
    Suppressed { seq: u64 },
    Disconnected(CloseReason),
    Response(u64),
}

/// The number of session transitions in a queue.
pub open spec fn count_transitions(q: Seq<Event>) -> nat
    decreases q.len(),
{
    if q.len() == 0 {
        0
    } else {
        count_transitions(q.drop_last()) + if q.last().body is SessionTransition {
            1nat
        } else {
            0nat
        }
    }
}

/// The first index at or after `i` holding a level meter (`levels`) or any event that is not a
/// transition (`!levels`); the queue's length where there is none.
pub open spec fn first_from(q: Seq<Event>, i: int, levels: bool) -> int
    decreases q.len() - i,
{
    if i < 0 || i >= q.len() {
        q.len() as int
    } else if (if levels {
        q[i].body is CaptureLevel
    } else {
        !(q[i].body is SessionTransition)
    }) {
        i
    } else {
        first_from(q, i + 1, levels)
    }
}

/// The event an overflowing queue gives up: the oldest level meter, else the oldest event that is
/// not a transition.
pub open spec fn victim(q: Seq<Event>) -> int {
    if first_from(q, 0, true) < q.len() {
        first_from(q, 0, true)
    } else {
        first_from(q, 0, false)
    }
}

/// A connection's outbound side as a value.
pub struct QueueView {
    pub state: ConnectionState,
    pub next_seq: u64,
    pub events: Seq<Event>,
    pub dropped_levels: u64,
}

/// The outbound queue's invariant: within both budgets, sequence numbers strictly increasing
/// and none beyond the last issued.
pub open spec fn queue_wf(v: QueueView) -> bool {
    &&& count_transitions(v.events) <= TRANSITION_RESERVE
    &&& v.events.len() - count_transitions(v.events) <= GENERAL_QUEUE
    &&& forall|i: int, j: int|
        0 <= i < j < v.events.len() ==> #[trigger] v.events[i].seq < #[trigger] v.events[j].seq
    &&& forall|i: int| 0 <= i < v.events.len() ==> #[trigger] v.events[i].seq <= v.next_seq
    &&& v.dropped_levels <= v.next_seq
}

/// Whether publishing `body` numbers a new event: the connection is open and the event is not a
/// transition beyond its reserve.
pub open spec fn publish_numbers(v: QueueView, body: EventBody) -> bool {
    !(v.state is Closed) && !(body is SessionTransition && count_transitions(v.events) >= TRANSITION_RESERVE)
}

/// The effect of publishing `body`: nothing once closed; a transition beyond its reserve closes
/// the connection as too slow; any other event beyond its budget first evicts the victim; the
/// event is then queued with the next sequence number.
pub open spec fn publish_spec(v: QueueView, body: EventBody) -> QueueView {
    if v.state is Closed {
        v
    } else if body is SessionTransition && count_transitions(v.events) >= TRANSITION_RESERVE {
        QueueView { state: ConnectionState::Closed(CloseReason::ClientTooSlow), ..v }
    } else {
        let evict = !(body is SessionTransition) && v.events.len() - count_transitions(v.events)
            >= GENERAL_QUEUE && victim(v.events) < v.events.len();
        let kept = if evict {
            v.events.remove(victim(v.events))
        } else {
            v.events
        };
        QueueView {
            state: v.state,
            next_seq: (v.next_seq + 1) as u64,
            events: kept.push(Event { seq: (v.next_seq + 1) as u64, body }),
            dropped_levels: if evict {
                (v.dropped_levels + 1) as u64
            } else {
                v.dropped_levels
            },
        }
    }
}

proof fn lemma_count_push(q: Seq<Event>, e: Event)
    ensures
        count_transitions(q.push(e)) == count_transitions(q) + if e.body is SessionTransition {
            1nat
        } else {
            0nat
        },
{
    assert(q.push(e).drop_last() =~= q);
}

proof fn lemma_count_bound(q: Seq<Event>)
    ensures
        count_transitions(q) <= q.len(),
        (forall|k: int| 0 <= k < q.len() ==> (#[trigger] q[k]).body is SessionTransition)
            ==> count_transitions(q) == q.len(),
    decreases q.len(),
{
    if q.len() > 0 {
        lemma_count_bound(q.drop_last());
        if forall|k: int| 0 <= k < q.len() ==> (#[trigger] q[k]).body is SessionTransition {
            assert forall|k: int| 0 <= k < q.drop_last().len() implies (
            #[trigger] q.drop_last()[k]).body is SessionTransition by {
                assert(q.drop_last()[k] == q[k]);
            }
            assert(q[q.len() - 1] == q.last());
        }
    }
}

proof fn lemma_count_remove(q: Seq<Event>, i: int)
    requires
        0 <= i < q.len(),
    ensures
        count_transitions(q.remove(i)) + if q[i].body is SessionTransition {
            1nat
        } else {
            0nat
        } == count_transitions(q),
    decreases q.len(),
{
    if i == q.len() - 1 {
        assert(q.remove(i) =~= q.drop_last());
    } else {
        lemma_count_remove(q.drop_last(), i);
        assert(q.remove(i) =~= q.drop_last().remove(i).push(q.last()));
        lemma_count_push(q.drop_last().remove(i), q.last());
        assert(q.drop_last()[i] == q[i]);
    }
}

proof fn lemma_first_from(q: Seq<Event>, i: int, levels: bool)
    requires
        0 <= i <= q.len(),
    ensures
        i <= first_from(q, i, levels) <= q.len(),
        first_from(q, i, levels) < q.len() ==> (if levels {
            q[first_from(q, i, levels)].body is CaptureLevel
        } else {
            !(q[first_from(q, i, levels)].body is SessionTransition)
        }),
        first_from(q, i, levels) == q.len() ==> forall|k: int|
            i <= k < q.len() ==> !(if levels {
                (#[trigger] q[k]).body is CaptureLevel
            } else {
                !(q[k].body is SessionTransition)
            }),
    decreases q.len() - i,
{
    if i < q.len() {
        lemma_first_from(q, i + 1, levels);
    }
}

proof fn lemma_victim(q: Seq<Event>)
    ensures
        0 <= victim(q) <= q.len(),
        victim(q) < q.len() ==> !(q[victim(q)].body is SessionTransition),
        q.len() > count_transitions(q) ==> victim(q) < q.len(),
{
    lemma_first_from(q, 0, true);
    lemma_first_from(q, 0, false);
    lemma_count_bound(q);
}

/// Publishing keeps the queue within its budgets and its sequence numbers ordered.
pub proof fn lemma_publish_wf(v: QueueView, body: EventBody)
    requires
        queue_wf(v),
        publish_numbers(v, body) ==> v.next_seq < u64::MAX,
    ensures
        queue_wf(publish_spec(v, body)),
{
    let w = publish_spec(v, body);
    if !(v.state is Closed) && !(body is SessionTransition && count_transitions(v.events)
        >= TRANSITION_RESERVE) {
        lemma_victim(v.events);
        let evict = !(body is SessionTransition) && v.events.len() - count_transitions(v.events)
            >= GENERAL_QUEUE && victim(v.events) < v.events.len();
        let kept = if evict {
            v.events.remove(victim(v.events))
        } else {
            v.events
        };
        if evict {
            lemma_count_remove(v.events, victim(v.events));
        }
        lemma_count_bound(v.events);
        let e = Event { seq: (v.next_seq + 1) as u64, body };
        lemma_count_push(kept, e);
        assert(forall|i: int|
            0 <= i < kept.len() ==> exists|j: int|
                0 <= j < v.events.len() && #[trigger] kept[i] == v.events[j] && (j == i || j == i
                    + 1)) by {
            assert forall|i: int| 0 <= i < kept.len() implies exists|j: int|
                0 <= j < v.events.len() && #[trigger] kept[i] == v.events[j] && (j == i || j == i
                    + 1) by {
                if evict && i >= victim(v.events) {
                    assert(kept[i] == v.events[i + 1]);
                } else {
                    assert(kept[i] == v.events[i]);
                }
            }
        }
        assert forall|i: int, j: int| 0 <= i < j < w.events.len() implies #[trigger] w.events[i].seq
            < #[trigger] w.events[j].seq by {
            if j == w.events.len() - 1 {
                let ii = choose|jj: int|
                    0 <= jj < v.events.len() && #[trigger] kept[i] == v.events[jj] && (jj == i || jj
                        == i + 1);
                assert(w.events[i] == kept[i]);
            } else {
                let ii = choose|jj: int|
                    0 <= jj < v.events.len() && #[trigger] kept[i] == v.events[jj] && (jj == i || jj
                        == i + 1);
                let kk = choose|jj: int|
                    0 <= jj < v.events.len() && #[trigger] kept[j] == v.events[jj] && (jj == j || jj
                        == j + 1);
                assert(w.events[i] == kept[i]);
                assert(w.events[j] == kept[j]);
                if evict {
                    if i >= victim(v.events) {
                        assert(kept[i] == v.events[i + 1]);
                        assert(kept[j] == v.events[j + 1]);
                    } else if j >= victim(v.events) {
                        assert(kept[i] == v.events[i]);
                        assert(kept[j] == v.events[j + 1]);
                    } else {
                        assert(kept[i] == v.events[i]);
                        assert(kept[j] == v.events[j]);
                    }
                } else {
                    assert(kept[i] == v.events[i]);
                    assert(kept[j] == v.events[j]);
                }
            }
        }
        assert forall|i: int| 0 <= i < w.events.len() implies #[trigger] w.events[i].seq
            <= w.next_seq by {
            if i < w.events.len() - 1 {
                let ii = choose|jj: int|
                    0 <= jj < v.events.len() && #[trigger] kept[i] == v.events[jj] && (jj == i || jj
                        == i + 1);
                assert(w.events[i] == kept[i]);
            }
        }
    }
}

/// Publishing never drops a session transition: every transition queued before is queued after.
pub proof fn law_transitions_never_dropped(v: QueueView, body: EventBody, k: int)
    requires
        0 <= k < v.events.len(),
        v.events[k].body is SessionTransition,
    ensures
        publish_spec(v, body).events.contains(v.events[k]),
{
    let w = publish_spec(v, body);
    lemma_victim(v.events);
    if !(v.state is Closed) && !(body is SessionTransition && count_transitions(v.events)
        >= TRANSITION_RESERVE) {
        let evict = !(body is SessionTransition) && v.events.len() - count_transitions(v.events)
            >= GENERAL_QUEUE && victim(v.events) < v.events.len();
        if evict {
            let vi = victim(v.events);
            assert(k != vi);
            if k < vi {
                assert(w.events[k] == v.events[k]);
            } else {
                assert(w.events[k - 1] == v.events[k]);
            }
        } else {
            assert(w.events[k] == v.events[k]);
        }
    } else {
        assert(w.events[k] == v.events[k]);
    }
}

/// A transition published while its reserve has room is queued, with the next sequence number.
pub proof fn law_reserve_admits_transitions(v: QueueView, from: String, to: String, cause: TransitionCause)
    requires
        !(v.state is Closed),
        count_transitions(v.events) < TRANSITION_RESERVE,
    ensures
        publish_spec(v, EventBody::SessionTransition { from, to, cause }).events.last()
            == (Event { seq: (v.next_seq + 1) as u64, body: EventBody::SessionTransition { from, to, cause } }),
        !(publish_spec(v, EventBody::SessionTransition { from, to, cause }).state is Closed),
{
}

/// The outbound side of one client connection: its state, the last sequence number issued, the
/// queued events and how many level meters were dropped.
pub struct EventQueue {
    state: ConnectionState,
    next_seq: u64,
    queue: Vec<Event>,
    dropped_levels: u64,
}

impl View for EventQueue {
    type V = QueueView;

    closed spec fn view(&self) -> QueueView {
        QueueView {
            state: self.state,
            next_seq: self.next_seq,
            events: self.queue@,
            dropped_levels: self.dropped_levels,
        }
    }
}

fn count_queued_transitions(q: &Vec<Event>) -> (n: usize)
    ensures
        n == count_transitions(q@),
{
    let mut n: usize = 0;
    let mut i: usize = 0;
    while i < q.len()
        invariant
            i <= q@.len(),
            n == count_transitions(q@.take(i as int)),
            n <= i,
        decreases q@.len() - i,
    {
        proof {
            assert(q@.take(i + 1).drop_last() =~= q@.take(i as int));
            assert(q@.take(i + 1).last() == q@[i as int]);
        }
        if q[i].body.is_transition() {
            n += 1;
        }
        i += 1;
    }
    proof {
        assert(q@.take(q@.len() as int) =~= q@);
    }
    n
}

fn find_first(q: &Vec<Event>, levels: bool) -> (i: usize)
    ensures
        i == first_from(q@, 0, levels),
{
    let mut i: usize = 0;
    while i < q.len()
        invariant
            i <= q@.len(),
            first_from(q@, 0, levels) == first_from(q@, i as int, levels),
        decreases q@.len() - i,
    {
        let hit = if levels {
            q[i].body.is_droppable()
        } else {
            !q[i].body.is_transition()
        };
        if hit {
            return i;
        }
        i += 1;
    }
    i
}

impl EventQueue {
    /// A fresh connection, still to be handshaken, with nothing queued.
    pub fn new() -> (r: EventQueue)
        ensures
            r@ == (QueueView {
                state: ConnectionState::Handshaking,
                next_seq: 0,
                events: Seq::empty(),
                dropped_levels: 0,
            }),
            queue_wf(r@),
    {
        EventQueue { state: ConnectionState::Handshaking, next_seq: 0, queue: Vec::new(), dropped_levels: 0 }
    }

    /// The connection's state.
    pub fn state(&self) -> (s: ConnectionState)
        ensures
            s == self@.state,
    {
        self.state
    }

    /// Whether publishing `body` now would number a new event.
    pub fn would_number(&self, body: &EventBody) -> (r: bool)
        ensures
            r == publish_numbers(self@, *body),
    {
        if let ConnectionState::Closed(_) = self.state {
            return false;
        }
        !(body.is_transition() && count_queued_transitions(&self.queue) >= TRANSITION_RESERVE)
    }

    /// The last sequence number issued on this connection.
    pub fn last_seq(&self) -> (s: u64)
        ensures
            s == self@.next_seq,
    {
        self.next_seq
    }

    /// How many events wait to be sent.
    pub fn queued(&self) -> (n: usize)
        ensures
            n == self@.events.len(),
    {
        self.queue.len()
    }

    /// How many level meters were dropped under back-pressure.
    pub fn dropped_levels(&self) -> (n: u64)
        ensures
            n == self@.dropped_levels,
    {
        self.dropped_levels
    }

    /// The handshake succeeded: a handshaking connection opens; any other stays as it is.
    pub fn open(&mut self)
        requires
            queue_wf(old(self)@),
        ensures
            final(self)@ == (if old(self)@.state is Handshaking {
                QueueView { state: ConnectionState::Open, ..old(self)@ }
            } else {
                old(self)@
            }),
            queue_wf(final(self)@),
    {
        if let ConnectionState::Handshaking = self.state {
            self.state = ConnectionState::Open;
        }
    }

    /// Close for `reason`, once: returns whether this call closed it. The first reason stays.
    pub fn close(&mut self, reason: CloseReason) -> (closed_now: bool)
        requires
            queue_wf(old(self)@),
        ensures
            closed_now == !(old(self)@.state is Closed),
            final(self)@ == (if closed_now {
                QueueView { state: ConnectionState::Closed(reason), ..old(self)@ }
            } else {
                old(self)@
            }),
            queue_wf(final(self)@),
    {
        if let ConnectionState::Closed(_) = self.state {
            return false;
        }
        self.state = ConnectionState::Closed(reason);
        true
    }

    /// Queue an event without ever blocking. Returns whether this call closed the connection
    /// (a transition beyond its reserve), in which case the peer is told it is too slow.
    pub fn publish(&mut self, body: EventBody) -> (closed_now: bool)
        requires
            queue_wf(old(self)@),
            publish_numbers(old(self)@, body) ==> old(self)@.next_seq < u64::MAX,
        ensures
            final(self)@ == publish_spec(old(self)@, body),
            queue_wf(final(self)@),
            closed_now == (!(old(self)@.state is Closed) && final(self)@.state is Closed),
    {
        proof {
            lemma_publish_wf(self@, body);
        }
        if let ConnectionState::Closed(_) = self.state {
            return false;
        }
        let transitions = count_queued_transitions(&self.queue);
        proof {
            lemma_count_bound(self.queue@);
        }
        if body.is_transition() {
            if transitions >= TRANSITION_RESERVE {
                self.state = ConnectionState::Closed(CloseReason::ClientTooSlow);
                return true;
            }
        } else {
            let general = self.queue.len() - transitions;
            if general >= GENERAL_QUEUE {
                let levels = find_first(&self.queue, true);
                let victim = if levels < self.queue.len() {
                    levels
                } else {
                    find_first(&self.queue, false)
                };
                if victim < self.queue.len() {
                    self.queue.remove(victim);
                    self.dropped_levels = self.dropped_levels + 1;
                }
            }
        }
        self.next_seq = self.next_seq + 1;
        self.queue.push(Event { seq: self.next_seq, body });
        false
    }

    /// The oldest queued event, the next to send.
    pub fn front(&self) -> (e: Option<&Event>)
        ensures
            e == (if self@.events.len() > 0 {
                Some(&self@.events[0])
            } else {
                None
            }),
    {
        if self.queue.len() > 0 {
            Some(&self.queue[0])
        } else {
            None
        }
    }

    /// The oldest queued event was sent: drop it from the queue.
    pub fn pop_front(&mut self)
        requires
            queue_wf(old(self)@),
        ensures
            final(self)@ == (QueueView {
                events: if old(self)@.events.len() > 0 {
                    old(self)@.events.drop_first()
                } else {
                    old(self)@.events
                },
                ..old(self)@
            }),
            queue_wf(final(self)@),
    {
        if self.queue.len() > 0 {
            let ghost q = self.queue@;
            self.queue.remove(0);
            proof {
                assert(self.queue@ =~= q.drop_first());
                lemma_count_remove(q, 0);
                lemma_count_bound(q);
                assert forall|i: int, j: int| 0 <= i < j < self.queue@.len() implies #[trigger] self.queue@[i].seq
                    < #[trigger] self.queue@[j].seq by {
                    assert(self.queue@[i] == q[i + 1]);
                    assert(self.queue@[j] == q[j + 1]);
                }
                assert forall|i: int| 0 <= i < self.queue@.len() implies #[trigger] self.queue@[i].seq
                    <= self.next_seq by {
                    assert(self.queue@[i] == q[i + 1]);
                }
            }
        }
    }
}

/// What to do with a connection before reading from it.
#[derive(Debug, Clone, Copy, PartialEq, Eq, Structural)]
pub enum Admission {
    /// The connection is closed: nothing to do.
    Skip,
    /// The peer is not the engine's own user: close before any method is looked at.
    Refuse,
    /// Read and dispatch one frame.
    Proceed,
}

/// Authorization happens before any frame is read: a closed connection is skipped, and a peer
/// whose user cannot be confirmed as the engine's own is refused.
pub fn admission(state: ConnectionState, engine_sid: &str, client_sid: Option<&str>) -> (a: Admission)
    ensures
        a == (if state is Closed {
            Admission::Skip
        } else if client_sid is Some && client_sid->0@ == engine_sid@ {
            Admission::Proceed
        } else {
            Admission::Refuse
        }),
{
    if let ConnectionState::Closed(_) = state {
        return Admission::Skip;
    }
    match authorize_client(engine_sid, client_sid) {
        Ok(()) => Admission::Proceed,
        Err(_) => Admission::Refuse,
    }
}

/// How a well-formed request is answered, by connection state and method.
#[derive(Debug, Clone, Copy, PartialEq, Eq, Structural)]
pub enum Route {
    /// Closed: nothing.
    Ignore,
    /// A hello whose major matches: open the connection and answer with the snapshot.
    Handshake,
    /// A hello whose major differs: a protocol-mismatch error naming the required version;
    /// nothing else changes.
    Mismatch,
    /// Anything but a hello before the handshake: not-handshaken error.
    NotHandshaken,
    /// A second hello: invalid-request error.
    AlreadyHandshaken,
    /// Answer with the snapshot and the last sequence number issued.
    Snapshot,
    /// Hand the method to the session authority.
    Apply,
}

/// The route of each (state, method) pair.
pub open spec fn route_spec(state: ConnectionState, method: Method) -> Route {
    match state {
        ConnectionState::Closed(_) => Route::Ignore,
        ConnectionState::Handshaking => match method {
            Method::EngineHello(h) => if h.client_protocol.major == PROTOCOL_MAJOR {
                Route::Handshake
            } else {
                Route::Mismatch
            },
            _ => Route::NotHandshaken,
        },
        ConnectionState::Open => match method {
            Method::EngineHello(_) => Route::AlreadyHandshaken,
            Method::SessionSnapshot => Route::Snapshot,
            _ => Route::Apply,
        },
    }
}

/// Judge a well-formed request.
pub fn route(state: ConnectionState, method: &Method) -> (r: Route)
    ensures
        r == route_spec(state, *method),
{
    match state {
        ConnectionState::Closed(_) => Route::Ignore,
        ConnectionState::Handshaking => match method {
            Method::EngineHello(h) => if h.client_protocol.major == PROTOCOL_MAJOR {
                Route::Handshake
            } else {
                Route::Mismatch
            },
            _ => Route::NotHandshaken,
        },
        ConnectionState::Open => match method {
            Method::EngineHello(_) => Route::AlreadyHandshaken,
            Method::SessionSnapshot => Route::Snapshot,
            _ => Route::Apply,
        },
    }
}

/// Before the handshake no method but the hello reaches the session authority.
pub proof fn law_nothing_applied_before_handshake(method: Method)
    ensures
        route_spec(ConnectionState::Handshaking, method) != Route::Apply,
        route_spec(ConnectionState::Handshaking, method) != Route::Snapshot,
{
}

/// A client's view of the event stream: the last sequence number seen, whether it must
/// re-snapshot, and whether it holds a rendered state.
#[derive(Debug, Clone, Copy, PartialEq, Eq, Structural)]
pub struct ResyncState {
    pub last_seq: Option<u64>,
    pub needs_snapshot: bool,
    pub rendering: bool,
}

impl ResyncState {
    /// Nothing seen, nothing rendered.
    pub fn new() -> (r: ResyncState)
        ensures
            r == (ResyncState { last_seq: None, needs_snapshot: false, rendering: false }),
    {
        ResyncState { last_seq: None, needs_snapshot: false, rendering: false }
    }

    /// An event numbered `seq` arrived. While a re-snapshot is pending it is suppressed; a number
    /// other than the next expected one discards local state and asks for a snapshot.
    pub fn on_event(&mut self, seq: u64) -> (a: ClientAction)
        requires
            !old(self).needs_snapshot ==> old(self).last_seq != Some(u64::MAX),
        ensures
            old(self).needs_snapshot ==> a == (ClientAction::Suppressed { seq }) && *final(self)
                == (ResyncState { last_seq: Some(seq), ..*old(self) }),
            !old(self).needs_snapshot ==> {
                let expected = match old(self).last_seq {
                    Some(l) => (l + 1) as u64,
                    None => seq,
                };
                if seq == expected {
                    a == (ClientAction::Rendered { seq }) && *final(self) == (ResyncState {
                        last_seq: Some(seq),
                        ..*old(self)
                    })
                } else {
                    a == (ClientAction::ResnapshotRequired { expected, got: seq }) && *final(self)
                        == (ResyncState { last_seq: Some(seq), needs_snapshot: true, rendering: false })
                }
            },
    {
        if self.needs_snapshot {
            self.last_seq = Some(seq);
            return ClientAction::Suppressed { seq };
        }
        let expected = match self.last_seq {
            Some(l) => l + 1,
            None => seq,
        };
        if seq != expected {
            self.needs_snapshot = true;
            self.rendering = false;
            self.last_seq = Some(seq);
            return ClientAction::ResnapshotRequired { expected, got: seq };
        }
        self.last_seq = Some(seq);
        ClientAction::Rendered { seq }
    }

    /// The engine said the client was too slow: discard local state until the next snapshot.
    pub fn on_too_slow(&mut self) -> (a: ClientAction)
        ensures
            a == ClientAction::Disconnected(CloseReason::ClientTooSlow),
            *final(self) == (ResyncState { needs_snapshot: true, rendering: false, ..*old(self) }),
    {
        self.rendering = false;
        self.needs_snapshot = true;
        ClientAction::Disconnected(CloseReason::ClientTooSlow)
    }

    /// A response carrying a snapshot arrived: render it, and resume from its sequence number
    /// where it names one.
    pub fn on_snapshot(&mut self, event_seq: Option<u64>)
        ensures
            final(self).rendering,
            !final(self).needs_snapshot,
            final(self).last_seq == (match event_seq {
                Some(s) => Some(s),
                None => old(self).last_seq,
            }),
    {
        self.rendering = true;
        self.needs_snapshot = false;
        if let Some(s) = event_seq {
            self.last_seq = Some(s);
        }
    }
}

} // verus!
