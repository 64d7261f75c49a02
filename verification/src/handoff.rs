//! The bounded, non-blocking handoff from capture servicing to durable writing. When the writer
//! is behind, sample payloads are replaced by an ordered explicit gap instead of blocking the
//! device: capture reads never wait on the filesystem.

use crate::source::{CaptureSource, SourceEvent};
use crate::timeline::TrackOrigin;
use std::sync::mpsc::SyncSender;
use vstd::prelude::*;

verus! {

#[verifier::external_type_specification]
#[verifier::external_body]
#[verifier::reject_recursive_types(T)]
pub struct ExSyncSender<T>(std::sync::mpsc::SyncSender<T>);

/// What an attempt to hand a value to a bounded channel came to.
pub enum SendAttempt<T> {
    /// The channel took the value.
    Sent,
    /// The channel is full; the value comes back.
    Full(T),
    /// The receiving side is gone; the value comes back.
    Disconnected(T),
}

/// `SyncSender::try_send`: never blocks. Whether the channel takes the value depends on the
/// receiver; when it does not, the value is handed back unchanged.
#[verifier::external_body]
fn try_send<T>(tx: &SyncSender<T>, value: T) -> (r: SendAttempt<T>)
    ensures
        r matches SendAttempt::Full(v) ==> v == value,
        r matches SendAttempt::Disconnected(v) ==> v == value,
{
    match tx.try_send(value) {
        Ok(()) => SendAttempt::Sent,
        Err(std::sync::mpsc::TrySendError::Full(v)) => SendAttempt::Full(v),
        Err(std::sync::mpsc::TrySendError::Disconnected(v)) => SendAttempt::Disconnected(v),
    }
}

/// `SyncSender::send`: blocks until the channel takes the value; `false` when the receiving
/// side is gone. The outcome depends on the receiver.
#[verifier::external_body]
fn send<T>(tx: &SyncSender<T>, value: T) -> (delivered: bool) {
    tx.send(value).is_ok()
}

/// Events crossing from the source-service thread to the durability thread. Filesystem work is
/// deliberately absent from the producer side of this boundary.
#[derive(Debug)]
pub enum CaptureWriteEvent {
    Samples(Vec<i16>),
    Gap(u64),
    FormatChanged(TrackOrigin),
    Ended,
}

/// A write event as a value.
pub enum WriteEventView {
    Samples(Seq<i16>),
    Gap(u64),
    FormatChanged(TrackOrigin),
    Ended,
}

impl View for CaptureWriteEvent {
    type V = WriteEventView;

    open spec fn view(&self) -> WriteEventView {
        match self {
            CaptureWriteEvent::Samples(s) => WriteEventView::Samples(s@),
            CaptureWriteEvent::Gap(n) => WriteEventView::Gap(*n),
            CaptureWriteEvent::FormatChanged(o) => WriteEventView::FormatChanged(*o),
            CaptureWriteEvent::Ended => WriteEventView::Ended,
        }
    }
}

/// The write event a source event becomes.
pub open spec fn write_event_of(e: SourceEvent) -> WriteEventView {
    match e {
        SourceEvent::Samples(s) => WriteEventView::Samples(s@),
        SourceEvent::FormatChanged(o) => WriteEventView::FormatChanged(o),
        SourceEvent::Ended => WriteEventView::Ended,
    }
}

/// The samples a gap event stands for.
pub open spec fn gap_len(e: WriteEventView) -> u64 {
    match e {
        WriteEventView::Gap(n) => n,
        _ => 0,
    }
}

pub open spec fn saturating_sum(a: u64, b: u64) -> u64 {
    if a + b > u64::MAX {
        u64::MAX
    } else {
        (a + b) as u64
    }
}

/// `samples` dropped samples retained behind `pending`: merged into a trailing gap, or as a new
/// gap; nothing for zero.
pub open spec fn with_gap(pending: Seq<WriteEventView>, samples: u64) -> Seq<WriteEventView> {
    if samples == 0 {
        pending
    } else if pending.len() > 0 && pending.last() is Gap {
        pending.drop_last().push(WriteEventView::Gap(saturating_sum(gap_len(pending.last()), samples)))
    } else {
        pending.push(WriteEventView::Gap(samples))
    }
}

/// An unsent event retained behind `pending`: samples become a gap of their length, other
/// events keep their place in order.
pub open spec fn retained(pending: Seq<WriteEventView>, e: WriteEventView) -> Seq<WriteEventView> {
    match e {
        WriteEventView::Samples(s) => with_gap(pending, s.len() as u64),
        _ => pending.push(e),
    }
}

/// After handing on an event behind the unsent tail `mid`: the event went out with nothing
/// pending, or it is retained (as `kept`) behind the tail.
pub open spec fn handed_on(
    mid: Seq<WriteEventView>,
    after: Seq<WriteEventView>,
    kept: Seq<WriteEventView>,
) -> bool {
    ||| after == kept
    ||| mid.len() == 0 && after.len() == 0
}

/// The state of a handoff: the events retained while the writer was behind, and whether the
/// writer is gone.
pub struct HandoffState {
    pub pending: Seq<WriteEventView>,
    pub disconnected: bool,
    /// What the channel has taken, in order.
    pub sent: Seq<WriteEventView>,
    /// Every event handed to the handoff, in order, as it was handed (before any samples were
    /// turned into a gap).
    pub handed: Seq<WriteEventView>,
}

/// Everything handed to the writer or kept for it, in order: what the channel took, then what
/// is retained.
pub open spec fn stream(h: HandoffState) -> Seq<WriteEventView> {
    h.sent + h.pending
}

/// `after` keeps every event of `before` that is not a gap at its place (a trailing gap may have
/// grown), and may hold more behind.
pub open spec fn keeps_non_gaps(before: Seq<WriteEventView>, after: Seq<WriteEventView>) -> bool {
    &&& before.len() <= after.len()
    &&& forall|i: int| 0 <= i < before.len() && !(before[i] is Gap) ==> #[trigger] after[i] == before[i]
}

/// Non-blocking, bounded handoff from capture servicing to durable writing.
pub struct CaptureHandoff {
    tx: SyncSender<CaptureWriteEvent>,
    pending: Vec<CaptureWriteEvent>,
    disconnected: bool,
    sent: Ghost<Seq<WriteEventView>>,
    handed: Ghost<Seq<WriteEventView>>,
}

pub open spec fn events_view(v: Seq<CaptureWriteEvent>) -> Seq<WriteEventView> {
    v.map_values(|e: CaptureWriteEvent| e@)
}

impl View for CaptureHandoff {
    type V = HandoffState;

    closed spec fn view(&self) -> HandoffState {
        HandoffState { pending: events_view(self.pending@), disconnected: self.disconnected, sent: self.sent@, handed: self.handed@ }
    }
}

proof fn lemma_with_gap_keeps(sent: Seq<WriteEventView>, pending: Seq<WriteEventView>, samples: u64)
    ensures
        keeps_non_gaps(sent + pending, sent + with_gap(pending, samples)),
{
    let a = sent + pending;
    let b = sent + with_gap(pending, samples);
    if samples != 0 {
        if pending.len() > 0 && pending.last() is Gap {
            assert forall|i: int| 0 <= i < a.len() && !(a[i] is Gap) implies #[trigger] b[i] == a[i] by {
                if i >= sent.len() {
                    assert(i - sent.len() < pending.len() - 1);
                }
            }
        } else {
            assert forall|i: int| 0 <= i < a.len() && !(a[i] is Gap) implies #[trigger] b[i] == a[i] by {
            }
        }
    }
}

/// What flushing leaves: an unsent tail of what was pending, in order (nothing once the writer
/// is gone), and a writer that once was gone stays gone.
pub open spec fn flushed(before: HandoffState, after: HandoffState) -> bool {
    &&& before.disconnected ==> after.disconnected
    &&& exists|k: int| 0 <= k <= before.pending.len() && after.pending == before.pending.skip(k)
}

impl CaptureHandoff {
    /// The channel to the writer.
    pub closed spec fn channel(&self) -> SyncSender<CaptureWriteEvent> {
        self.tx
    }

    /// A handoff over the channel `tx`, with nothing retained and the writer assumed present.
    pub fn new(tx: SyncSender<CaptureWriteEvent>) -> (h: CaptureHandoff)
        ensures
            h.channel() == tx,
            h@.pending.len() == 0,
            !h@.disconnected,
            h@.sent.len() == 0,
            h@.handed.len() == 0,
    {
        let h = CaptureHandoff { tx, pending: Vec::new(), disconnected: false, sent: Ghost(Seq::empty()), handed: Ghost(Seq::empty()) };
        assert(events_view(h.pending@) =~= Seq::<WriteEventView>::empty());
        h
    }

    /// Retain `samples` dropped samples as a gap behind what is pending.
    fn retain_gap(&mut self, samples: u64)
        ensures
            final(self)@ == (HandoffState {
                pending: with_gap(old(self)@.pending, samples),
                ..old(self)@
            }),
            final(self).tx == old(self).tx,
    {
        if samples == 0 {
            return;
        }
        let n = self.pending.len();
        if n > 0 {
            match &self.pending[n - 1] {
                CaptureWriteEvent::Gap(p) => {
                    let merged = p.saturating_add(samples);
                    let ghost before = self.pending@;
                    self.pending.set(n - 1, CaptureWriteEvent::Gap(merged));
                    assert(events_view(self.pending@) =~= events_view(before).drop_last().push(
                        WriteEventView::Gap(merged),
                    ));
                    return;
                },
                _ => {},
            }
        }
        let ghost before = self.pending@;
        self.pending.push(CaptureWriteEvent::Gap(samples));
        assert(events_view(self.pending@) =~= events_view(before).push(WriteEventView::Gap(samples)));
    }

    /// Retain an event that could not be sent.
    fn retain_unsent(&mut self, event: CaptureWriteEvent)
        ensures
            final(self)@ == (HandoffState {
                pending: retained(old(self)@.pending, event@),
                ..old(self)@
            }),
            final(self).tx == old(self).tx,
    {
        match event {
            CaptureWriteEvent::Samples(samples) => self.retain_gap(samples.len() as u64),
            other => {
                let ghost before = self.pending@;
                let ghost ov = other@;
                self.pending.push(other);
                assert(events_view(self.pending@) =~= events_view(before).push(ov));
            },
        }
    }

    /// Send what is pending, in order, until the channel is full; a gone writer drops it all.
    pub fn flush_pending(&mut self)
        ensures
            flushed(old(self)@, final(self)@),
            !final(self)@.disconnected ==> stream(final(self)@) == stream(old(self)@),
            final(self)@.handed == old(self)@.handed,
            final(self).channel() == old(self).channel(),
    {
        let ghost start = events_view(self.pending@);
        let ghost mut sent: int = 0;
        assert(start.skip(0) =~= start);
        while self.pending.len() > 0
            invariant
                start == old(self)@.pending,
                0 <= sent <= start.len(),
                events_view(self.pending@) == start.skip(sent),
                old(self).disconnected ==> self.disconnected,
                !self.disconnected ==> self.sent@ + events_view(self.pending@) == old(self).sent@ + start,
                self.tx == old(self).tx,
                self.handed == old(self).handed,
            ensures
                start == old(self)@.pending,
                0 <= sent <= start.len(),
                events_view(self.pending@) == start.skip(sent),
                old(self).disconnected ==> self.disconnected,
                !self.disconnected ==> self.sent@ + events_view(self.pending@) == old(self).sent@ + start,
                self.tx == old(self).tx,
                self.handed == old(self).handed,
            decreases self.pending@.len(),
        {
            let ghost before = self.pending@;
            let event = self.pending.remove(0);
            let ghost ev = event@;
            assert(events_view(self.pending@) =~= events_view(before).drop_first());
            assert(start.skip(sent).drop_first() =~= start.skip(sent + 1));
            match try_send(&self.tx, event) {
                SendAttempt::Sent => {
                    proof {
                        assert(ev == events_view(before)[0]);
                        assert(self.sent@.push(ev) + events_view(self.pending@) =~= self.sent@ + events_view(before));
                        self.sent@ = self.sent@.push(ev);
                        sent = sent + 1;
                    }
                },
                SendAttempt::Full(event) => {
                    self.pending.insert(0, event);
                    assert(self.pending@ =~= before);
                    break;
                },
                SendAttempt::Disconnected(_) => {
                    self.disconnected = true;
                    self.pending.clear();
                    proof {
                        sent = start.len() as int;
                    }
                    assert(events_view(self.pending@) =~= start.skip(sent));
                    break;
                },
            }
        }
        assert(self@.pending == old(self)@.pending.skip(sent));
    }

    /// Hand one source event to the writer without blocking. Anything still pending goes first;
    /// while something is pending, or the writer is gone, the event is retained behind it
    /// (samples as a gap of their length). Returns whether the writer is still there.
    pub fn forward(&mut self, event: SourceEvent) -> (alive: bool)
        ensures
            alive == !final(self)@.disconnected,
            old(self)@.disconnected ==> final(self)@.disconnected,
            exists|k: int|
                0 <= k <= old(self)@.pending.len() && handed_on(
                    #[trigger] old(self)@.pending.skip(k),
                    final(self)@.pending,
                    retained(old(self)@.pending.skip(k), write_event_of(event)),
                ),
            !final(self)@.disconnected && !(event is Samples) ==> stream(final(self)@) == stream(
                old(self)@,
            ).push(write_event_of(event)),
            final(self)@.handed == old(self)@.handed.push(write_event_of(event)),
            final(self).channel() == old(self).channel(),
    {
        proof {
            self.handed@ = self.handed@.push(write_event_of(event));
        }
        let ghost first = self@;
        self.flush_pending();
        let ghost mid = self@;
        let ghost ev = write_event_of(event);
        let event = match event {
            SourceEvent::Samples(samples) => CaptureWriteEvent::Samples(samples),
            SourceEvent::FormatChanged(origin) => CaptureWriteEvent::FormatChanged(origin),
            SourceEvent::Ended => CaptureWriteEvent::Ended,
        };
        assert(event@ == ev);
        let ghost k = choose|k: int| 0 <= k <= first.pending.len() && mid.pending == first.pending.skip(k);
        assert(old(self)@.pending.skip(k) == first.pending.skip(k));
        if self.disconnected || self.pending.len() > 0 {
            self.retain_unsent(event);
            assert(self@.pending == retained(first.pending.skip(k), ev));
            proof {
                if !(ev is Samples) && !self.disconnected {
                    assert(stream(self@) =~= stream(mid).push(ev));
                }
            }
            return !self.disconnected;
        }
        match try_send(&self.tx, event) {
            SendAttempt::Sent => {
                assert(self@.pending.len() == 0);
                proof {
                    assert(self.sent@.push(ev) + events_view(self.pending@) =~= stream(mid).push(ev));
                    self.sent@ = self.sent@.push(ev);
                }
                true
            },
            SendAttempt::Full(event) => {
                self.retain_unsent(event);
                assert(self@.pending == retained(first.pending.skip(k), ev));
                proof {
                    if !(ev is Samples) {
                        assert(stream(self@) =~= stream(mid).push(ev));
                    }
                }
                true
            },
            SendAttempt::Disconnected(_) => {
                self.disconnected = true;
                assert(self@.pending.len() == 0);
                false
            },
        }
    }

    /// Hand an explicit gap of `samples` to the writer without blocking; retained behind what is
    /// pending (merged with a trailing gap) when it cannot go now. Returns whether the writer is
    /// still there.
    pub fn gap(&mut self, samples: u64) -> (alive: bool)
        ensures
            alive == !final(self)@.disconnected,
            old(self)@.disconnected ==> final(self)@.disconnected,
            exists|k: int|
                0 <= k <= old(self)@.pending.len() && handed_on(
                    #[trigger] old(self)@.pending.skip(k),
                    final(self)@.pending,
                    with_gap(old(self)@.pending.skip(k), samples),
                ),
            !final(self)@.disconnected ==> keeps_non_gaps(stream(old(self)@), stream(final(self)@)),
            !final(self)@.disconnected && samples > 0 && (stream(old(self)@).len() == 0 || !(stream(
                old(self)@,
            ).last() is Gap)) ==> stream(final(self)@) == stream(old(self)@).push(WriteEventView::Gap(samples)),
            !final(self)@.disconnected && samples == 0 ==> (stream(final(self)@) == stream(old(self)@)
                || stream(final(self)@) == stream(old(self)@).push(WriteEventView::Gap(0))),
            final(self)@.handed == old(self)@.handed.push(WriteEventView::Gap(samples)),
            final(self).channel() == old(self).channel(),
    {
        proof {
            self.handed@ = self.handed@.push(WriteEventView::Gap(samples));
        }
        let ghost first = self@;
        self.flush_pending();
        let ghost mid = self@;
        let ghost k = choose|k: int| 0 <= k <= first.pending.len() && mid.pending == first.pending.skip(k);
        if self.disconnected || self.pending.len() > 0 {
            self.retain_gap(samples);
            proof {
                lemma_with_gap_keeps(mid.sent, mid.pending, samples);
            }
            return !self.disconnected;
        }
        match try_send(&self.tx, CaptureWriteEvent::Gap(samples)) {
            SendAttempt::Sent => {
                proof {
                    self.sent@ = self.sent@.push(WriteEventView::Gap(samples));
                    assert(stream(self@) =~= stream(mid).push(WriteEventView::Gap(samples)));
                }
                true
            },
            SendAttempt::Full(_) => {
                self.retain_gap(samples);
                proof {
                    lemma_with_gap_keeps(mid.sent, mid.pending, samples);
                }
                true
            },
            SendAttempt::Disconnected(_) => {
                self.disconnected = true;
                false
            },
        }
    }

    /// At the end of capture: deliver what is pending, in order, then the end marker, blocking
    /// as needed; stop at the first delivery the writer does not take.
    pub fn finish(self) {
        let mut handoff = self;
        while handoff.pending.len() > 0
            decreases handoff.pending@.len(),
        {
            let event = handoff.pending.remove(0);
            if !send(&handoff.tx, event) {
                return;
            }
        }
        let _ = send(&handoff.tx, CaptureWriteEvent::Ended);
    }
}

/// The gap handed on for `discontinuities` device discontinuities of `gap_samples` each.
pub open spec fn discontinuity_gap(discontinuities: u32, gap_samples: u64) -> WriteEventView {
    WriteEventView::Gap((discontinuities * gap_samples) as u64)
}

/// Service one capture event: read it from the source, hand it on, then hand on the
/// discontinuities the device reported as a gap of `discontinuity_gap_samples` each. Returns
/// whether capture goes on: not once the writer is gone, nor after the source ended.
pub fn service_capture_once<S: CaptureSource + ?Sized>(
    source: &mut S,
    handoff: &mut CaptureHandoff,
    discontinuity_gap_samples: u64,
) -> (more: bool)
    requires
        discontinuity_gap_samples * 0xffff_ffff <= u64::MAX,
    ensures
        more ==> !final(handoff)@.disconnected,
        old(handoff)@.disconnected ==> !more,
        !more && !final(handoff)@.disconnected ==> stream(final(handoff)@).contains(WriteEventView::Ended),
        final(handoff).channel() == old(handoff).channel(),
        final(handoff)@.handed.len() == old(handoff)@.handed.len() + 1 || final(handoff)@.handed.len()
            == old(handoff)@.handed.len() + 2,
        final(handoff)@.handed.take(old(handoff)@.handed.len() as int) == old(handoff)@.handed,
        ({
            let n = old(handoff)@.handed.len() as int;
            let e = final(handoff)@.handed[n];
            let h = final(handoff)@.handed;
            let connected = !final(handoff)@.disconnected;
            &&& !(e is Gap)
            &&& more == (connected && !(e is Ended))
            &&& h.len() == n + 2 ==> exists|d: u32| d != 0 && #[trigger] discontinuity_gap(d, discontinuity_gap_samples) == h.last()
            &&& (connected && !(e is Samples) && h.len() == n + 1) ==> stream(final(handoff)@) == stream(old(handoff)@).push(e)
            &&& (connected && !(e is Samples) && h.len() == n + 2 && discontinuity_gap_samples > 0)
                ==> stream(final(handoff)@) == stream(old(handoff)@).push(e).push(h.last())
            &&& (connected && !(e is Samples) && h.len() == n + 2 && discontinuity_gap_samples == 0)
                ==> (stream(final(handoff)@) == stream(old(handoff)@).push(e) || stream(final(handoff)@)
                == stream(old(handoff)@).push(e).push(WriteEventView::Gap(0)))
        }),
{
    let event = source.next();
    let ended = match event {
        SourceEvent::Ended => true,
        _ => false,
    };
    let ghost start = handoff@;
    let ghost ev = write_event_of(event);
    let forwarded = handoff.forward(event);
    proof {
        assert(handoff@.handed.take(start.handed.len() as int) =~= start.handed);
        assert(handoff@.handed[start.handed.len() as int] == ev);
    }
    if !forwarded {
        return false;
    }
    let ghost after_event = handoff@;
    proof {
        if ended {
            assert(stream(after_event)[stream(start).len() as int] == WriteEventView::Ended);
        }
    }
    let discontinuities = source.take_discontinuities();
    if discontinuities != 0 {
        proof {
            assert(discontinuities as u64 * discontinuity_gap_samples <= u64::MAX) by (nonlinear_arith)
                requires
                    discontinuity_gap_samples * 0xffff_ffff <= u64::MAX,
                    discontinuities <= 0xffff_ffff,
            ;
        }
        let ghost mid = handoff@;
        proof {
            if !(ev is Samples) {
                assert(stream(mid).last() == ev);
            }
            if discontinuity_gap_samples > 0 {
                assert(discontinuities as u64 * discontinuity_gap_samples > 0) by (nonlinear_arith)
                    requires
                        discontinuities > 0,
                        discontinuity_gap_samples > 0,
                ;
            }
        }
        let alive = handoff.gap(discontinuities as u64 * discontinuity_gap_samples);
        proof {
            assert(handoff@.handed.last() == discontinuity_gap(discontinuities, discontinuity_gap_samples));
            assert(handoff@.handed[start.handed.len() as int] == mid.handed[start.handed.len() as int]);
            assert(handoff@.handed.take(start.handed.len() as int) =~= start.handed);
        }
        if !alive {
            return false;
        }
        proof {
            if ended {
                assert(stream(handoff@)[stream(start).len() as int] == WriteEventView::Ended);
            }
        }
    }
    proof {
        if ended {
            assert(stream(handoff@).contains(WriteEventView::Ended)) by {
                assert(stream(handoff@)[stream(start).len() as int] == WriteEventView::Ended);
            }
        }
    }
    !ended
}

/// `persist` accepted each of the first `n` items.
pub open spec fn persisted_through<T, E, F: FnMut(&T) -> Result<(), E>>(persist: F, items: Seq<T>, n: int) -> bool {
    forall|j: int| 0 <= j < n ==> #[trigger] call_ensures(persist, (&items[j],), Ok::<(), E>(()))
}

/// `persist` accepted the items before `i` and refused item `i` with `e`.
pub open spec fn failed_at<T, E, F: FnMut(&T) -> Result<(), E>>(persist: F, items: Seq<T>, i: int, e: E) -> bool {
    &&& 0 <= i < items.len()
    &&& persisted_through(persist, items, i)
    &&& call_ensures(persist, (&items[i],), Err::<(), E>(e))
}

/// Persist `items` in order, one call of `persist` each, and stop at the first failure: no item
/// after a failed one is attempted, and the failure is returned.
pub fn persist_batch<T, E, F: FnMut(&T) -> Result<(), E>>(items: Vec<T>, persist: F) -> (r: Result<(), E>)
    requires
        forall|x: &T| #[trigger] call_requires(persist, (x,)),
    ensures
        r is Ok ==> persisted_through(persist, items@, items@.len() as int),
        r matches Err(e) ==> exists|i: int| #[trigger] failed_at(persist, items@, i, e),
{
    broadcast use vstd::function::group_function_axioms;

    let ghost f = persist;
    let mut step = persist;
    let mut i: usize = 0;
    while i < items.len()
        invariant
            i <= items@.len(),
            step == f,
            f == persist,
            forall|x: &T| #[trigger] call_requires(step, (x,)),
            persisted_through(f, items@, i as int),
        decreases items@.len() - i,
    {
        let res = step(&items[i]);
        assert(call_ensures(f, (&items@[i as int],), res));
        match res {
            Ok(u) => {
                assert(res == Ok::<(), E>(u));
                assert(call_ensures(f, (&items@[i as int],), Ok::<(), E>(())));
            },
            Err(e) => {
                assert(failed_at(f, items@, i as int, e));
                return Err(e);
            },
        }
        i += 1;
    }
    Ok(())
}

} // verus!
