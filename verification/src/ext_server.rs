//! The extension channel server over an injected transport: authentication, rate limit, replay
//! and freshness checks, a bounded backlog, and the conversion of accepted messages into tab
//! signals that carry host, tab key, audibility and meeting presence, never a URL or a title.

use crate::detector::{Authority, SignalKind};
use crate::ext_auth::{check_spec, opt_text, Authenticator, RejectReason, Token};
use crate::export_identity::hex_lower;
use crate::ids::SignalId;
use crate::message::{message_spec, ExtensionMessage, MessageView};
use crate::text::same_text;
use vstd::prelude::*;

verus! {

/// How old an observation may be, in milliseconds, and still be accepted.
pub const FRESHNESS_WINDOW_MS: i64 = 5_000;

/// Accepted requests per second, server-wide.
pub const MAX_MESSAGES_PER_SECOND: usize = 20;

/// Signals held before the oldest is dropped.
pub const MAX_QUEUED_SIGNALS: usize = 200;

/// The source every tab signal names.
pub const SOURCE_ID: &'static str = "ext.tabs";

/// Extension instances whose sequence space is remembered (a browser restart opens a new one).
pub const MAX_INSTANCES: usize = 16;

/// Nanoseconds in a second: the rate limit's window.
pub const RATE_WINDOW_NS: u64 = 1_000_000_000;

/// Where the server reads time. Implementations decide what the readings are.
pub trait Clock {
    fn monotonic_ns(&self) -> u64;

    fn wall_utc_ms(&self) -> i64;
}

#[verifier::external_type_specification]
#[verifier::external_body]
pub struct ExInstant(std::time::Instant);

/// `Instant::now`.
#[verifier::external_body]
fn instant_now() -> std::time::Instant {
    std::time::Instant::now()
}

/// `Instant::elapsed` in whole nanoseconds, truncated to 64 bits.
#[verifier::external_body]
fn elapsed_ns(start: &std::time::Instant) -> u64 {
    start.elapsed().as_nanos() as u64
}

/// `SystemTime::now` as Unix milliseconds; 0 before the epoch.
#[verifier::external_body]
fn unix_now_ms() -> i64 {
    std::time::SystemTime::now().duration_since(std::time::UNIX_EPOCH).map(|d| d.as_millis() as i64).unwrap_or(0)
}

/// The machine's clocks, with a monotonic zero shared by the sources of a session.
pub struct SystemClock {
    start: std::time::Instant,
}

impl SystemClock {
    /// A clock whose monotonic zero is `start`.
    pub fn with_origin(start: std::time::Instant) -> (c: SystemClock)
        ensures
            c.origin() == start,
    {
        SystemClock { start }
    }

    /// The monotonic zero.
    pub closed spec fn origin(&self) -> std::time::Instant {
        self.start
    }
}

impl Default for SystemClock {
    fn default() -> (c: SystemClock) {
        SystemClock { start: instant_now() }
    }
}

impl Clock for SystemClock {
    fn monotonic_ns(&self) -> u64 {
        elapsed_ns(&self.start)
    }

    fn wall_utc_ms(&self) -> i64 {
        unix_now_ms()
    }
}

/// What the transport hands the server: the parts of an HTTP request the channel looks at.
#[derive(Debug, Clone)]
pub struct Request {
    pub connection_id: u32,
    pub origin: Option<String>,
    pub token: Option<String>,
    pub body: Vec<u8>,
    /// The process-tree root of the browser that opened the connection, as the transport observed
    /// it on the loopback peer; copied into every tab signal so the detector can join tab and
    /// microphone facts. `None` when the transport cannot attribute the peer.
    pub peer_process_tree_root_pid: Option<u32>,
}

/// Status only. There is never a body.
#[derive(Debug, Clone, Copy, PartialEq, Eq, Structural)]
pub struct Response {
    pub status: u16,
}

/// The status of each refusal.
pub open spec fn rejection_status(reason: RejectReason) -> u16 {
    match reason {
        RejectReason::MissingToken | RejectReason::WrongToken => 401,
        RejectReason::WebOrigin | RejectReason::OriginMismatch => 403,
        RejectReason::Malformed => 400,
        RejectReason::StaleSequence | RejectReason::StaleObservation => 409,
        RejectReason::RateLimited => 429,
    }
}

impl Response {
    /// `204 No Content`: the message was accepted.
    pub fn accepted() -> (r: Response)
        ensures
            r.status == 204,
    {
        Response { status: 204 }
    }

    /// The response to a refusal.
    pub fn for_rejection(reason: RejectReason) -> (r: Response)
        ensures
            r.status == rejection_status(reason),
    {
        Response {
            status: match reason {
                RejectReason::MissingToken | RejectReason::WrongToken => 401,
                RejectReason::WebOrigin | RejectReason::OriginMismatch => 403,
                RejectReason::Malformed => 400,
                RejectReason::StaleSequence | RejectReason::StaleObservation => 409,
                RejectReason::RateLimited => 429,
            },
        }
    }
}

/// The position of each reason among the rejection counters.
pub open spec fn reason_index(reason: RejectReason) -> int {
    match reason {
        RejectReason::MissingToken => 0,
        RejectReason::WrongToken => 1,
        RejectReason::WebOrigin => 2,
        RejectReason::OriginMismatch => 3,
        RejectReason::Malformed => 4,
        RejectReason::StaleSequence => 5,
        RejectReason::StaleObservation => 6,
        RejectReason::RateLimited => 7,
    }
}

fn reason_slot(reason: RejectReason) -> (i: usize)
    ensures
        i == reason_index(reason),
{
    match reason {
        RejectReason::MissingToken => 0,
        RejectReason::WrongToken => 1,
        RejectReason::WebOrigin => 2,
        RejectReason::OriginMismatch => 3,
        RejectReason::Malformed => 4,
        RejectReason::StaleSequence => 5,
        RejectReason::StaleObservation => 6,
        RejectReason::RateLimited => 7,
    }
}

/// What the server counted: accepted messages, refusals by reason, and signals dropped from a
/// full backlog.
#[derive(Debug, Default, Clone, PartialEq, Eq)]
pub struct Counters {
    pub accepted: u64,
    pub rejected: [u64; 8],
    pub dropped_oldest: u64,
}

impl Counters {
    /// How many requests were refused for `reason`.
    pub fn rejected_for(&self, reason: RejectReason) -> (n: u64)
        ensures
            n == self.rejected@[reason_index(reason)],
    {
        self.rejected[reason_slot(reason)]
    }
}

/// What a server is started with.
#[derive(Debug, Clone)]
pub struct ServerConfig {
    pub pinned_extension_id: String,
}

/// One tab observation, as a detector signal of extension authority.
#[derive(Debug, Clone, PartialEq, Eq)]
pub struct TabSignal {
    pub signal_id: SignalId,
    pub source_id: String,
    pub kind: SignalKind,
    pub host: String,
    pub tab_key: String,
    pub monotonic_ns: u64,
    pub wall_utc_ms: i64,
    pub audible: Option<bool>,
    pub process_tree_root_pid: Option<u32>,
    pub authority: Authority,
}

/// A tab signal by everything but its freshly minted id.
pub struct SignalFacts {
    pub source_id: Seq<char>,
    pub kind: SignalKind,
    pub host: Seq<char>,
    pub tab_key: Seq<char>,
    pub monotonic_ns: u64,
    pub wall_utc_ms: i64,
    pub audible: Option<bool>,
    pub process_tree_root_pid: Option<u32>,
    pub authority: Authority,
}

/// The facts of a signal.
pub open spec fn facts_of(s: TabSignal) -> SignalFacts {
    SignalFacts {
        source_id: s.source_id@,
        kind: s.kind,
        host: s.host@,
        tab_key: s.tab_key@,
        monotonic_ns: s.monotonic_ns,
        wall_utc_ms: s.wall_utc_ms,
        audible: s.audible,
        process_tree_root_pid: s.process_tree_root_pid,
        authority: s.authority,
    }
}

/// The signals an accepted message yields: meeting presence, then audibility; a report with
/// neither is a keep-alive and yields nothing, so it can never corroborate anything.
pub open spec fn signals_of(m: MessageView, pid: Option<u32>, now_ns: u64, wall_ms: i64) -> Seq<
    SignalFacts,
> {
    let make = |kind: SignalKind|
        SignalFacts {
            source_id: SOURCE_ID@,
            kind,
            host: m.host,
            tab_key: m.tab_key,
            monotonic_ns: now_ns,
            wall_utc_ms: wall_ms,
            audible: Some(m.audible),
            process_tree_root_pid: pid,
            authority: Authority::Extension,
        };
    (if m.meeting_present {
        seq![make(SignalKind::TabMeetingPresent)]
    } else {
        Seq::empty()
    }) + (if m.audible {
        seq![make(SignalKind::TabAudible)]
    } else {
        Seq::empty()
    })
}

/// A server's state as values.
pub struct ServerView {
    /// Extension instances in first-seen order, each with its last accepted sequence number.
    pub instances: Seq<(Seq<char>, u64)>,
    /// Monotonic times of the requests counted against the current rate window, oldest first.
    pub recent: Seq<u64>,
    /// Accepted signals, oldest first.
    pub queue: Seq<SignalFacts>,
    pub accepted: u64,
    pub rejected: Seq<u64>,
    pub dropped_oldest: u64,
}

/// Within every bound, with room in every counter.
pub open spec fn server_wf(v: ServerView) -> bool {
    &&& v.instances.len() <= MAX_INSTANCES
    &&& v.recent.len() <= MAX_MESSAGES_PER_SECOND
    &&& v.queue.len() <= MAX_QUEUED_SIGNALS
    &&& v.rejected.len() == 8
}

/// Every counter can take one more.
pub open spec fn counters_have_room(v: ServerView) -> bool {
    &&& v.accepted < u64::MAX
    &&& v.dropped_oldest < u64::MAX - 1
    &&& forall|i: int| 0 <= i < v.rejected.len() ==> #[trigger] v.rejected[i] < u64::MAX
}

/// Drop the requests that left the one-second window, oldest first.
pub open spec fn prune(recent: Seq<u64>, now_ns: u64) -> Seq<u64>
    decreases recent.len(),
{
    if recent.len() > 0 && now_ns - recent[0] >= RATE_WINDOW_NS {
        prune(recent.drop_first(), now_ns)
    } else {
        recent
    }
}

/// The index of `id` among the instances, or their count where it is absent.
pub open spec fn instance_index(instances: Seq<(Seq<char>, u64)>, id: Seq<char>) -> int
    decreases instances.len(),
{
    if instances.len() == 0 {
        0
    } else if instances[0].0 == id {
        0
    } else {
        1 + instance_index(instances.drop_first(), id)
    }
}

/// Record `seq` as the last sequence number of `id`; a new instance beyond the bound evicts the
/// oldest one.
pub open spec fn remember(instances: Seq<(Seq<char>, u64)>, id: Seq<char>, seq: u64) -> Seq<
    (Seq<char>, u64),
> {
    let i = instance_index(instances, id);
    if i < instances.len() {
        instances.update(i, (id, seq))
    } else if instances.len() + 1 > MAX_INSTANCES {
        instances.push((id, seq)).drop_first()
    } else {
        instances.push((id, seq))
    }
}

/// Queue signals one by one; a full backlog drops its oldest first.
pub open spec fn enqueue_all(queue: Seq<SignalFacts>, dropped: u64, signals: Seq<SignalFacts>) -> (
    Seq<SignalFacts>,
    u64,
)
    decreases signals.len(),
{
    if signals.len() == 0 {
        (queue, dropped)
    } else {
        let (q, d) = enqueue_all(queue, dropped, signals.drop_last());
        if q.len() >= MAX_QUEUED_SIGNALS {
            (q.drop_first().push(signals.last()), (d + 1) as u64)
        } else {
            (q.push(signals.last()), d)
        }
    }
}

/// Count one refusal for `reason`.
pub open spec fn count_rejection(v: ServerView, reason: RejectReason) -> ServerView {
    ServerView {
        rejected: v.rejected.update(reason_index(reason), (v.rejected[reason_index(reason)] + 1) as u64),
        ..v
    }
}

/// The outcome of handling a request whose authentication came out `auth`, at monotonic time
/// `now_ns` and wall time `wall_ms`: the new state and the response status. Checks run in order:
/// authentication, the server-wide rate limit, the message's form, its sequence within its
/// instance, its freshness; only then is it remembered, counted and turned into signals.
pub open spec fn handle_spec(
    v: ServerView,
    auth: Result<(), RejectReason>,
    body: Seq<u8>,
    pid: Option<u32>,
    now_ns: u64,
    wall_ms: i64,
) -> (ServerView, u16) {
    match auth {
        Err(reason) => (count_rejection(v, reason), rejection_status(reason)),
        Ok(()) => {
            let pruned = prune(v.recent, now_ns);
            if pruned.len() >= MAX_MESSAGES_PER_SECOND {
                (
                    count_rejection(ServerView { recent: pruned, ..v }, RejectReason::RateLimited),
                    429,
                )
            } else {
                let v1 = ServerView { recent: pruned.push(now_ns), ..v };
                match message_spec(body) {
                    Err(_) => (count_rejection(v1, RejectReason::Malformed), 400),
                    Ok(m) => {
                        let i = instance_index(v1.instances, m.instance_id);
                        if i < v1.instances.len() && m.seq <= v1.instances[i].1 {
                            (count_rejection(v1, RejectReason::StaleSequence), 409)
                        } else if wall_ms - m.observed_at_ms > FRESHNESS_WINDOW_MS {
                            (count_rejection(v1, RejectReason::StaleObservation), 409)
                        } else {
                            let (q, d) = enqueue_all(
                                v1.queue,
                                v1.dropped_oldest,
                                signals_of(m, pid, now_ns, wall_ms),
                            );
                            (
                                ServerView {
                                    instances: remember(v1.instances, m.instance_id, m.seq),
                                    accepted: (v1.accepted + 1) as u64,
                                    queue: q,
                                    dropped_oldest: d,
                                    ..v1
                                },
                                204,
                            )
                        }
                    },
                }
            }
        },
    }
}

/// `Some` of the characters of an owned string, or `None`.
pub open spec fn opt_string(o: Option<String>) -> Option<Seq<char>> {
    match o {
        Some(s) => Some(s@),
        None => None,
    }
}

/// The extension channel server.
pub struct Server<C: Clock> {
    auth: Authenticator,
    clock: C,
    instances: Vec<(String, u64)>,
    recent: Vec<u64>,
    queue: Vec<TabSignal>,
    counters: Counters,
}

/// The facts of each queued signal.
pub open spec fn queue_facts(q: Seq<TabSignal>) -> Seq<SignalFacts> {
    Seq::new(q.len(), |i: int| facts_of(q[i]))
}

/// The instances by their ids' characters.
pub open spec fn instances_view(instances: Seq<(String, u64)>) -> Seq<(Seq<char>, u64)> {
    Seq::new(instances.len(), |i: int| (instances[i].0@, instances[i].1))
}

impl<C: Clock> View for Server<C> {
    type V = ServerView;

    closed spec fn view(&self) -> ServerView {
        ServerView {
            instances: instances_view(self.instances@),
            recent: self.recent@,
            queue: queue_facts(self.queue@),
            accepted: self.counters.accepted,
            rejected: self.counters.rejected@,
            dropped_oldest: self.counters.dropped_oldest,
        }
    }
}

proof fn lemma_prune_len(recent: Seq<u64>, now_ns: u64)
    ensures
        prune(recent, now_ns).len() <= recent.len(),
    decreases recent.len(),
{
    if recent.len() > 0 && now_ns - recent[0] >= RATE_WINDOW_NS {
        lemma_prune_len(recent.drop_first(), now_ns);
    }
}

proof fn lemma_instance_index(instances: Seq<(Seq<char>, u64)>, id: Seq<char>)
    ensures
        0 <= instance_index(instances, id) <= instances.len(),
        instance_index(instances, id) < instances.len() ==> instances[instance_index(instances, id)].0
            == id,
        forall|k: int| 0 <= k < instance_index(instances, id) ==> #[trigger] instances[k].0 != id,
    decreases instances.len(),
{
    if instances.len() > 0 && instances[0].0 != id {
        lemma_instance_index(instances.drop_first(), id);
        assert forall|k: int| 0 <= k < instance_index(instances, id) implies #[trigger] instances[k].0
            != id by {
            if k > 0 {
                assert(instances[k] == instances.drop_first()[k - 1]);
            }
        }
    }
}

proof fn lemma_instance_index_at(instances: Seq<(Seq<char>, u64)>, id: Seq<char>, n: int)
    requires
        0 <= n <= instances.len(),
        n < instances.len() ==> instances[n].0 == id,
        forall|k: int| 0 <= k < n ==> #[trigger] instances[k].0 != id,
    ensures
        instance_index(instances, id) == n,
    decreases n,
{
    if n > 0 {
        assert(instances[0].0 != id);
        assert forall|k: int| 0 <= k < n - 1 implies #[trigger] instances.drop_first()[k].0 != id by {
            assert(instances.drop_first()[k] == instances[k + 1]);
        }
        lemma_instance_index_at(instances.drop_first(), id, n - 1);
    }
}

proof fn lemma_enqueue_bound(queue: Seq<SignalFacts>, dropped: u64, signals: Seq<SignalFacts>)
    requires
        queue.len() <= MAX_QUEUED_SIGNALS,
        signals.len() <= 2,
        dropped < u64::MAX - 1,
    ensures
        enqueue_all(queue, dropped, signals).0.len() <= MAX_QUEUED_SIGNALS,
        enqueue_all(queue, dropped, signals).1 <= dropped + signals.len(),
    decreases signals.len(),
{
    if signals.len() > 0 {
        lemma_enqueue_bound(queue, dropped, signals.drop_last());
    }
}

impl<C: Clock> Server<C> {
    /// The server's invariant.
    pub open spec fn wf(&self) -> bool {
        server_wf(self@)
    }

    /// The pinned origin requests must come from.
    pub closed spec fn pinned_origin(&self) -> Seq<char> {
        self.auth.pinned_origin()@
    }

    /// The token requests must present, as hex.
    pub closed spec fn token_hex(&self) -> Seq<char> {
        hex_lower(self.auth.token_view())
    }

    /// A new server mints a new token; the token of any previous engine start is dead.
    pub fn start(config: &ServerConfig, clock: C) -> (s: Server<C>)
        ensures
            s.wf(),
            s@.instances.len() == 0,
            s@.recent.len() == 0,
            s@.queue.len() == 0,
            s@.accepted == 0,
            s@.dropped_oldest == 0,
            s@.rejected == seq![0u64, 0u64, 0u64, 0u64, 0u64, 0u64, 0u64, 0u64],
            s.pinned_origin() == crate::ext_auth::extension_scheme() + config.pinned_extension_id@,
    {
        let s = Server {
            auth: Authenticator::new(Token::generate(), config.pinned_extension_id.as_str()),
            clock,
            instances: Vec::new(),
            recent: Vec::new(),
            queue: Vec::new(),
            counters: Counters { accepted: 0, rejected: [0u64; 8], dropped_oldest: 0 },
        };
        proof {
            assert(s@.rejected =~= seq![0u64, 0u64, 0u64, 0u64, 0u64, 0u64, 0u64, 0u64]);
            assert(s@.instances =~= Seq::<(Seq<char>, u64)>::empty());
            assert(s@.queue =~= Seq::<SignalFacts>::empty());
        }
        s
    }

    /// The authenticator, and through it the token.
    pub fn authenticator(&self) -> (a: &Authenticator)
        ensures
            a.pinned_origin()@ == self.pinned_origin(),
            hex_lower(a.token_view()) == self.token_hex(),
    {
        &self.auth
    }

    /// The counters.
    pub fn counters(&self) -> (c: &Counters)
        ensures
            c.accepted == self@.accepted,
            c.rejected@ == self@.rejected,
            c.dropped_oldest == self@.dropped_oldest,
    {
        &self.counters
    }

    /// How many signals wait to be drained.
    pub fn queued(&self) -> (n: usize)
        ensures
            n == self@.queue.len(),
    {
        self.queue.len()
    }

    /// How many requests count against the current rate window.
    pub fn recent_requests(&self) -> (n: usize)
        ensures
            n == self@.recent.len(),
    {
        self.recent.len()
    }

    /// Signals accepted so far, oldest first. Draining empties the queue.
    pub fn drain(&mut self) -> (signals: Vec<TabSignal>)
        requires
            old(self).wf(),
        ensures
            final(self).wf(),
            queue_facts(signals@) == old(self)@.queue,
            final(self)@ == (ServerView { queue: Seq::empty(), ..old(self)@ }),
    {
        let mut out: Vec<TabSignal> = Vec::new();
        std::mem::swap(&mut out, &mut self.queue);
        proof {
            assert(queue_facts(self.queue@) =~= Seq::<SignalFacts>::empty());
        }
        out
    }

    fn count(&mut self, reason: RejectReason) -> (r: Response)
        requires
            server_wf(old(self)@),
            counters_have_room(old(self)@),
        ensures
            final(self)@ == count_rejection(old(self)@, reason),
            r.status == rejection_status(reason),
            final(self).auth == old(self).auth,
    {
        let i = reason_slot(reason);
        let n = self.counters.rejected[i];
        self.counters.rejected.set(i, n + 1);
        proof {
            assert(self@.rejected =~= count_rejection(old(self)@, reason).rejected);
        }
        Response::for_rejection(reason)
    }

    /// Handle one request at the given clock readings: the monotonic time counts it against the
    /// rate window and stamps its signals, the wall time judges its freshness.
    pub fn handle_at(&mut self, request: Request, now_ns: u64, wall_ms: i64) -> (r: Response)
        requires
            old(self).wf(),
            counters_have_room(old(self)@),
        ensures
            final(self).wf(),
            final(self).pinned_origin() == old(self).pinned_origin(),
            final(self).token_hex() == old(self).token_hex(),
            ({
                let (v, status) = handle_spec(
                    old(self)@,
                    check_spec(
                        old(self).pinned_origin(),
                        old(self).token_hex(),
                        opt_string(request.origin),
                        opt_string(request.token),
                    ),
                    request.body@,
                    request.peer_process_tree_root_pid,
                    now_ns,
                    wall_ms,
                );
                final(self)@ == v && r.status == status
            }),
    {
        let origin: Option<&str> = match &request.origin {
            Some(o) => Some(o.as_str()),
            None => None,
        };
        let token: Option<&str> = match &request.token {
            Some(t) => Some(t.as_str()),
            None => None,
        };
        proof {
            assert(opt_text(origin) == opt_string(request.origin));
            assert(opt_text(token) == opt_string(request.token));
        }
        if let Err(reason) = self.auth.check(origin, token) {
            return self.count(reason);
        }
        // the server-wide rate window
        let ghost before = self.recent@;
        while self.recent.len() > 0 && now_ns >= self.recent[0] && now_ns - self.recent[0]
            >= RATE_WINDOW_NS
            invariant
                prune(before, now_ns) == prune(self.recent@, now_ns),
                self.recent@.len() <= before.len(),
                self.instances == old(self).instances,
                self.queue == old(self).queue,
                self.counters == old(self).counters,
                self.auth == old(self).auth,
            decreases self.recent@.len(),
        {
            let ghost cur = self.recent@;
            self.recent.remove(0);
            proof {
                assert(self.recent@ =~= cur.drop_first());
            }
        }
        proof {
            assert(prune(self.recent@, now_ns) == self.recent@);
            lemma_prune_len(before, now_ns);
        }
        if self.recent.len() >= MAX_MESSAGES_PER_SECOND {
            return self.count(RejectReason::RateLimited);
        }
        self.recent.push(now_ns);
        let message = match ExtensionMessage::parse(request.body.as_slice()) {
            Ok(m) => m,
            Err(_) => return self.count(RejectReason::Malformed),
        };
        // the instance's sequence
        let mut i: usize = 0;
        let ghost iv = instances_view(self.instances@);
        while i < self.instances.len() && !same_text(self.instances[i].0.as_str(), message.instance_id.as_str())
            invariant
                i <= self.instances@.len(),
                iv == instances_view(self.instances@),
                forall|k: int| 0 <= k < i ==> #[trigger] iv[k].0 != message.instance_id@,
            decreases self.instances@.len() - i,
        {
            proof {
                assert(iv[i as int].0 == self.instances@[i as int].0@);
            }
            i += 1;
        }
        proof {
            if i < self.instances@.len() {
                assert(iv[i as int].0 == message.instance_id@);
            }
            lemma_instance_index_at(iv, message.instance_id@, i as int);
        }
        if i < self.instances.len() && message.seq <= self.instances[i].1 {
            return self.count(RejectReason::StaleSequence);
        }
        let age: i128 = wall_ms as i128 - message.observed_at_ms as i128;
        if age > FRESHNESS_WINDOW_MS as i128 {
            return self.count(RejectReason::StaleObservation);
        }
        // remember the sequence
        if i < self.instances.len() {
            let id = self.instances[i].0.clone();
            self.instances.set(i, (id, message.seq));
            proof {
                assert(instances_view(self.instances@) =~= iv.update(i as int, (message.instance_id@, message.seq)));
            }
        } else {
            self.instances.push((message.instance_id.clone(), message.seq));
            if self.instances.len() > MAX_INSTANCES {
                self.instances.remove(0);
            }
            proof {
                let pushed = iv.push((message.instance_id@, message.seq));
                if pushed.len() > MAX_INSTANCES {
                    assert(instances_view(self.instances@) =~= pushed.drop_first());
                } else {
                    assert(instances_view(self.instances@) =~= pushed);
                }
            }
        }
        self.counters.accepted = self.counters.accepted + 1;
        // signals
        let ghost sigs = signals_of(message@, request.peer_process_tree_root_pid, now_ns, wall_ms);
        let ghost q0 = queue_facts(self.queue@);
        let ghost d0 = self.counters.dropped_oldest;
        proof {
            lemma_enqueue_bound(q0, d0, sigs);
            assert(sigs.take(0) =~= Seq::<SignalFacts>::empty());
        }
        if message.meeting_present {
            let s = self.make_signal(&message, SignalKind::TabMeetingPresent, request.peer_process_tree_root_pid, now_ns, wall_ms);
            self.enqueue(s);
            proof {
                assert(sigs[0] == facts_of(s));
                assert(sigs.take(1).drop_last() =~= sigs.take(0));
                assert(sigs.take(1).last() == sigs[0]);
                assert(enqueue_all(q0, d0, sigs.take(0)) == (q0, d0));
            }
        }
        proof {
            assert(enqueue_all(q0, d0, sigs.take(0)) == (q0, d0));
            let n: int = if message.meeting_present { 1 } else { 0 };
            assert((queue_facts(self.queue@), self.counters.dropped_oldest) == enqueue_all(q0, d0, sigs.take(n)));
            lemma_enqueue_bound(q0, d0, sigs.take(n));
        }
        if message.audible {
            let ghost n: int = if message.meeting_present { 1 } else { 0 };
            let s = self.make_signal(&message, SignalKind::TabAudible, request.peer_process_tree_root_pid, now_ns, wall_ms);
            self.enqueue(s);
            proof {
                assert(sigs.take(n + 1).drop_last() =~= sigs.take(n));
                assert(sigs.take(n + 1).last() == sigs[n]);
            }
        }
        proof {
            assert(sigs.take(sigs.len() as int) =~= sigs);
        }
        Response::accepted()
    }

    fn make_signal(
        &self,
        message: &ExtensionMessage,
        kind: SignalKind,
        pid: Option<u32>,
        now_ns: u64,
        wall_ms: i64,
    ) -> (s: TabSignal)
        ensures
            facts_of(s) == (SignalFacts {
                source_id: SOURCE_ID@,
                kind,
                host: message.host@,
                tab_key: message.tab_key@,
                monotonic_ns: now_ns,
                wall_utc_ms: wall_ms,
                audible: Some(message.audible),
                process_tree_root_pid: pid,
                authority: Authority::Extension,
            }),
    {
        TabSignal {
            signal_id: SignalId::new(),
            source_id: SOURCE_ID.to_owned(),
            kind,
            host: message.host.clone(),
            tab_key: message.tab_key.clone(),
            monotonic_ns: now_ns,
            wall_utc_ms: wall_ms,
            audible: Some(message.audible),
            process_tree_root_pid: pid,
            authority: Authority::Extension,
        }
    }

    fn enqueue(&mut self, signal: TabSignal)
        requires
            old(self)@.queue.len() <= MAX_QUEUED_SIGNALS,
            old(self)@.dropped_oldest < u64::MAX,
        ensures
            final(self)@.queue == (if old(self)@.queue.len() >= MAX_QUEUED_SIGNALS {
                old(self)@.queue.drop_first().push(facts_of(signal))
            } else {
                old(self)@.queue.push(facts_of(signal))
            }),
            final(self)@.dropped_oldest == (if old(self)@.queue.len() >= MAX_QUEUED_SIGNALS {
                (old(self)@.dropped_oldest + 1) as u64
            } else {
                old(self)@.dropped_oldest
            }),
            final(self)@.instances == old(self)@.instances,
            final(self)@.recent == old(self)@.recent,
            final(self)@.accepted == old(self)@.accepted,
            final(self)@.rejected == old(self)@.rejected,
            final(self).auth == old(self).auth,
    {
        let ghost q = self.queue@;
        if self.queue.len() >= MAX_QUEUED_SIGNALS {
            self.queue.remove(0);
            self.counters.dropped_oldest = self.counters.dropped_oldest + 1;
        }
        self.queue.push(signal);
        proof {
            if q.len() >= MAX_QUEUED_SIGNALS {
                assert(queue_facts(self.queue@) =~= queue_facts(q).drop_first().push(facts_of(signal)));
            } else {
                assert(queue_facts(self.queue@) =~= queue_facts(q).push(facts_of(signal)));
            }
        }
    }
}

impl<C: Clock> Server<C> {
    /// Handle one request: authenticate, rate-limit, parse, check sequence and freshness,
    /// enqueue. The clock is read for the time the request is counted at and judged by.
    pub fn handle(&mut self, request: Request) -> (r: Response)
        requires
            old(self).wf(),
            counters_have_room(old(self)@),
        ensures
            final(self).wf(),
            exists|now_ns: u64, wall_ms: i64|
                {
                    let (v, status) = #[trigger] handle_spec(
                        old(self)@,
                        check_spec(
                            old(self).pinned_origin(),
                            old(self).token_hex(),
                            opt_string(request.origin),
                            opt_string(request.token),
                        ),
                        request.body@,
                        request.peer_process_tree_root_pid,
                        now_ns,
                        wall_ms,
                    );
                    final(self)@ == v && r.status == status
                },
    {
        let now_ns = self.clock.monotonic_ns();
        let wall_ms = self.clock.wall_utc_ms();
        self.handle_at(request, now_ns, wall_ms)
    }
}


/// A request that fails authentication is refused and changes nothing but its refusal count:
/// no signal, no sequence number and no rate-window slot come from it.
pub proof fn law_unauthenticated_changes_nothing(
    v: ServerView,
    reason: RejectReason,
    body: Seq<u8>,
    pid: Option<u32>,
    now_ns: u64,
    wall_ms: i64,
)
    ensures
        handle_spec(v, Err(reason), body, pid, now_ns, wall_ms).1 != 204,
        handle_spec(v, Err(reason), body, pid, now_ns, wall_ms).0.queue == v.queue,
        handle_spec(v, Err(reason), body, pid, now_ns, wall_ms).0.instances == v.instances,
        handle_spec(v, Err(reason), body, pid, now_ns, wall_ms).0.recent == v.recent,
{
}

/// A message whose sequence number is not above the last one accepted from its instance is never
/// accepted, and leaves the instance's sequence and the backlog as they were.
pub proof fn law_replay_never_accepted(
    v: ServerView,
    body: Seq<u8>,
    pid: Option<u32>,
    now_ns: u64,
    wall_ms: i64,
    k: int,
)
    requires
        message_spec(body) is Ok,
        0 <= k < v.instances.len(),
        v.instances[k].0 == message_spec(body)->Ok_0.instance_id,
        forall|j: int| 0 <= j < k ==> #[trigger] v.instances[j].0 != v.instances[k].0,
        message_spec(body)->Ok_0.seq <= v.instances[k].1,
    ensures
        handle_spec(v, Ok(()), body, pid, now_ns, wall_ms).1 != 204,
        handle_spec(v, Ok(()), body, pid, now_ns, wall_ms).0.instances == v.instances,
        handle_spec(v, Ok(()), body, pid, now_ns, wall_ms).0.queue == v.queue,
{
    lemma_instance_index_at(v.instances, v.instances[k].0, k);
}

/// An accepted keep-alive (neither audible nor showing a meeting) yields no signal.
pub proof fn law_keep_alive_yields_nothing(m: MessageView, pid: Option<u32>, now_ns: u64, wall_ms: i64)
    requires
        !m.audible,
        !m.meeting_present,
    ensures
        signals_of(m, pid, now_ns, wall_ms).len() == 0,
{
}

} // verus!
