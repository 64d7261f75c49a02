//! The export seam. A destination creates or reconciles exactly one remote object per export
//! key; the exporter commits the intent (carrying the key) before any remote call, looks the
//! recorded identity up before creating, falls back to the destination's external-id lookup
//! after a crash, classifies failures, refuses any host absent from the egress inventory before
//! the request, and appends an audit record of identifiers and counts to every attempt.

use crate::export_identity::{ExportKey, ExportRequest, RemoteIdentity};
use crate::ids::ArtifactId;
use vstd::prelude::*;

verus! {

/// A destination failure as the adapter reports it; `classify` maps it to a retry class.
#[derive(Debug, Clone, Copy, PartialEq, Eq, Structural)]
pub enum DestError {
    Network,
    Http { status: u16 },
    /// Test seam: the process died after the remote object was created.
    Crashed,
}

/// How a failure may be retried.
#[derive(Debug, Clone, Copy, PartialEq, Eq, Structural)]
pub enum RetryClass {
    Retryable,
    /// 401/403: surfaced, never retried blindly.
    NeedsReauthentication,
    Permanent,
}

pub open spec fn classify_spec(error: DestError) -> RetryClass {
    match error {
        DestError::Network => RetryClass::Retryable,
        DestError::Http { status } => if status == 401 || status == 403 {
            RetryClass::NeedsReauthentication
        } else if status == 429 || (500 <= status && status <= 599) {
            RetryClass::Retryable
        } else {
            RetryClass::Permanent
        },
        DestError::Crashed => RetryClass::Retryable,
    }
}

/// Network trouble, 429 and 5xx are retryable; 401 and 403 need the user; anything else is
/// permanent.
pub fn classify(error: &DestError) -> (c: RetryClass)
    ensures
        c == classify_spec(*error),
{
    match error {
        DestError::Network => RetryClass::Retryable,
        DestError::Http { status } => if *status == 401 || *status == 403 {
            RetryClass::NeedsReauthentication
        } else if *status == 429 || (500 <= *status && *status <= 599) {
            RetryClass::Retryable
        } else {
            RetryClass::Permanent
        },
        DestError::Crashed => RetryClass::Retryable,
    }
}

/// What an export attempt came to, as the audit log records it.
#[derive(Debug, Clone, Copy, PartialEq, Eq, Structural)]
pub enum AuditOutcome {
    Created,
    Reconciled,
    Failed { class: RetryClass },
    RejectedUndeclaredHost,
}

/// `{when, destination_id, host, artifact_id, bytes, outcome}`: no field can hold content.
#[derive(Debug, Clone, PartialEq, Eq)]
pub struct AuditRecord {
    pub at_ms: u64,
    pub destination_id: String,
    pub host: String,
    pub artifact_id: ArtifactId,
    pub bytes: u64,
    pub outcome: AuditOutcome,
}

pub open spec fn ascii_lower(c: char) -> char {
    if 'A' <= c && c <= 'Z' {
        ((c as u8) + 32) as char
    } else {
        c
    }
}

/// Equal but for the case of ASCII letters.
pub open spec fn eq_ignore_ascii_case(a: Seq<char>, b: Seq<char>) -> bool {
    &&& a.len() == b.len()
    &&& forall|i: int| 0 <= i < a.len() ==> ascii_lower(#[trigger] a[i]) == ascii_lower(b[i])
}

/// The hosts exports may go to.
#[derive(Debug, Clone, PartialEq, Eq)]
pub struct EgressInventory {
    hosts: Vec<String>,
}

impl EgressInventory {
    /// The declared hosts, in order.
    pub closed spec fn host_list(&self) -> Seq<Seq<char>> {
        self.hosts@.map_values(|h: String| h@)
    }

    /// Whether `host` is declared (ignoring ASCII case).
    pub open spec fn declares(&self, host: Seq<char>) -> bool {
        exists|i: int| 0 <= i < self.host_list().len() && eq_ignore_ascii_case(#[trigger] self.host_list()[i], host)
    }

    /// The hosts built into this program.
    pub open spec fn embedded_hosts() -> Seq<Seq<char>> {
        seq!["api.notion.com"@, "www.googleapis.com"@, "oauth2.googleapis.com"@]
    }

    /// The inventory built into this program: the Notion API, the Google APIs and Google's
    /// OAuth endpoint.
    pub fn embedded() -> (inv: EgressInventory)
        ensures
            inv.host_list() == Self::embedded_hosts(),
    {
        let mut hosts: Vec<String> = Vec::new();
        hosts.push("api.notion.com".to_owned());
        hosts.push("www.googleapis.com".to_owned());
        hosts.push("oauth2.googleapis.com".to_owned());
        let inv = EgressInventory { hosts };
        assert(inv.host_list() =~= seq!["api.notion.com"@, "www.googleapis.com"@, "oauth2.googleapis.com"@]);
        inv
    }

    /// An inventory declaring exactly `hosts`, in order.
    pub fn from_hosts(hosts: Vec<String>) -> (inv: EgressInventory)
        ensures
            inv.host_list() == hosts@.map_values(|h: String| h@),
    {
        EgressInventory { hosts }
    }

    /// Whether `host` is declared (ignoring ASCII case).
    pub fn contains(&self, host: &str) -> (r: bool)
        ensures
            r == self.declares(host@),
    {
        let target = crate::text::chars_of(host);
        let ghost hl = self.host_list();
        let mut i: usize = 0;
        while i < self.hosts.len()
            invariant
                i <= self.hosts@.len(),
                hl == self.host_list(),
                hl.len() == self.hosts@.len(),
                target@ == host@,
                forall|k: int| 0 <= k < i ==> !eq_ignore_ascii_case(#[trigger] hl[k], host@),
            decreases self.hosts@.len() - i,
        {
            let h = crate::text::chars_of(self.hosts[i].as_str());
            assert(hl[i as int] == self.hosts@[i as int]@);
            if same_ignoring_case(&h, &target) {
                return true;
            }
            i += 1;
        }
        false
    }

    /// The declared hosts.
    pub fn hosts(&self) -> (h: &[String])
        ensures
            h@.map_values(|s: String| s@) == self.host_list(),
    {
        self.hosts.as_slice()
    }
}

fn lower(c: char) -> (r: char)
    ensures
        r == ascii_lower(c),
{
    if 'A' <= c && c <= 'Z' {
        ((c as u8) + 32) as char
    } else {
        c
    }
}

fn same_ignoring_case(a: &Vec<char>, b: &Vec<char>) -> (r: bool)
    ensures
        r == eq_ignore_ascii_case(a@, b@),
{
    if a.len() != b.len() {
        return false;
    }
    let mut i: usize = 0;
    while i < a.len()
        invariant
            i <= a@.len(),
            a@.len() == b@.len(),
            forall|k: int| 0 <= k < i ==> ascii_lower(#[trigger] a@[k]) == ascii_lower(b@[k]),
        decreases a@.len() - i,
    {
        if lower(a[i]) != lower(b[i]) {
            return false;
        }
        i += 1;
    }
    true
}

pub const MAX_ATTEMPTS: u32 = 5;

pub const BACKLOG_CAP: usize = 500;

/// The base delay before retry `attempts` (1 to 4): 1 s, 4 s, 16 s, 64 s; none outside.
pub open spec fn backoff_base_spec(attempts: u32) -> Option<u64> {
    if attempts == 1 {
        Some(1_000)
    } else if attempts == 2 {
        Some(4_000)
    } else if attempts == 3 {
        Some(16_000)
    } else if attempts == 4 {
        Some(64_000)
    } else {
        None
    }
}

/// The exponential schedule before jitter: none for no attempt yet, nor once the attempts are
/// used up.
pub fn backoff_base_ms(attempts: u32) -> (d: Option<u64>)
    ensures
        d == backoff_base_spec(attempts),
{
    if attempts == 0 || attempts >= MAX_ATTEMPTS {
        return None;
    }
    if attempts == 1 {
        Some(1_000)
    } else if attempts == 2 {
        Some(4_000)
    } else if attempts == 3 {
        Some(16_000)
    } else {
        Some(64_000)
    }
}

/// Where an export stands.
#[derive(Debug, Clone, PartialEq, Eq)]
pub enum ExportStatus {
    Queued,
    Retrying { attempts: u32, not_before_ms: u64 },
    NeedsReauthentication { attempts: u32 },
    Succeeded,
    FailedPermanent { reason: String },
}

/// One export in the queue.
#[derive(Debug, Clone, PartialEq, Eq)]
pub struct ExportEntry {
    pub key: ExportKey,
    pub destination_id: String,
    pub enqueued_at_ms: u64,
    pub attempts: u32,
    pub status: ExportStatus,
}

/// Every key recorded before is still recorded after.
pub open spec fn keys_kept(before: Map<Seq<char>, RemoteIdentity>, after: Map<Seq<char>, RemoteIdentity>) -> bool {
    forall|k: Seq<char>| before.contains_key(k) ==> #[trigger] after.contains_key(k)
}

/// Once an export key's identity is recorded it stays recorded through any run of steps that
/// each keep the recorded keys, as every `export` does. Since `export` creates only for a key
/// not recorded, a retry of an export that once succeeded never creates a duplicate remote
/// object.
pub proof fn law_recorded_keys_stay_recorded(stores: Seq<Map<Seq<char>, RemoteIdentity>>, key: Seq<char>)
    requires
        stores.len() >= 1,
        stores[0].contains_key(key),
        forall|i: int| 0 <= i < stores.len() - 1 ==> keys_kept(#[trigger] stores[i], stores[i + 1]),
    ensures
        forall|i: int| 0 <= i < stores.len() ==> (#[trigger] stores[i]).contains_key(key),
    decreases stores.len(),
{
    if stores.len() > 1 {
        let shorter = stores.drop_last();
        assert forall|i: int| 0 <= i < shorter.len() - 1 implies keys_kept(#[trigger] shorter[i], shorter[i + 1]) by {
            assert(keys_kept(stores[i], stores[i + 1]));
        }
        law_recorded_keys_stay_recorded(shorter, key);
        assert forall|i: int| 0 <= i < stores.len() implies (#[trigger] stores[i]).contains_key(key) by {
            if i < stores.len() - 1 {
                assert(shorter[i] == stores[i]);
            } else {
                assert(shorter[i - 1] == stores[i - 1]);
                assert(keys_kept(stores[i - 1], stores[i]));
            }
        }
    }
}

/// The persistent export queue's rules; persistence itself is the engine's port.
#[derive(Debug, Clone)]
pub struct ExportQueue {
    pub entries: Vec<ExportEntry>,
    /// Exports the cap forced out, surfaced to the user.
    pub dropped: Vec<ExportKey>,
}

pub open spec fn is_pending(e: ExportEntry) -> bool {
    e.status is Queued || e.status is Retrying
}

/// How many of the first `n` entries are pending (queued or retrying).
pub open spec fn pending_count(es: Seq<ExportEntry>, n: int) -> nat
    decreases n,
{
    if n <= 0 || n > es.len() {
        0
    } else {
        pending_count(es, n - 1) + if is_pending(es[n - 1]) {
            1nat
        } else {
            0nat
        }
    }
}

/// Whether an entry for `key` is still live (not failed for good).
pub open spec fn live_for(es: Seq<ExportEntry>, key: Seq<char>) -> bool {
    exists|i: int| 0 <= i < es.len() && (#[trigger] es[i]).key.0@ == key && !(es[i].status is FailedPermanent)
}

/// The index of the oldest entry that was queued and never attempted (the first such among
/// equals), from index `i` on; -1 if none.
pub open spec fn victim_from(es: Seq<ExportEntry>, i: int) -> int
    decreases es.len() - i,
{
    if i < 0 || i >= es.len() {
        -1
    } else {
        let rest = victim_from(es, i + 1);
        if es[i].status is Queued && es[i].attempts == 0 && (rest == -1 || es[i].enqueued_at_ms
            <= es[rest].enqueued_at_ms) {
            i
        } else {
            rest
        }
    }
}

impl Default for ExportQueue {
    fn default() -> (q: ExportQueue)
        ensures
            q.entries@.len() == 0,
            q.dropped@.len() == 0,
    {
        ExportQueue { entries: Vec::new(), dropped: Vec::new() }
    }
}

proof fn lemma_victim_range(es: Seq<ExportEntry>, i: int)
    requires
        0 <= i,
    ensures
        victim_from(es, i) == -1 || (i <= victim_from(es, i) < es.len() && es[victim_from(es, i)].status is Queued
            && es[victim_from(es, i)].attempts == 0),
    decreases es.len() - i,
{
    if i < es.len() {
        lemma_victim_range(es, i + 1);
    }
}

proof fn lemma_pending_update(es: Seq<ExportEntry>, v: int, e: ExportEntry, n: int)
    requires
        0 <= v < es.len(),
        0 <= n <= es.len(),
    ensures
        pending_count(es.update(v, e), n) + (if v < n && is_pending(es[v]) { 1nat } else { 0nat })
            == pending_count(es, n) + (if v < n && is_pending(e) { 1nat } else { 0nat }),
    decreases n,
{
    if n > 0 {
        lemma_pending_update(es, v, e, n - 1);
    }
}

proof fn lemma_pending_push(es: Seq<ExportEntry>, e: ExportEntry, n: int)
    requires
        0 <= n <= es.len(),
    ensures
        pending_count(es.push(e), n) == pending_count(es, n),
    decreases n,
{
    if n > 0 {
        lemma_pending_push(es, e, n - 1);
    }
}

impl ExportQueue {
    /// How many entries are pending.
    pub fn pending(&self) -> (n: usize)
        ensures
            n == pending_count(self.entries@, self.entries@.len() as int),
    {
        let mut n: usize = 0;
        let mut i: usize = 0;
        while i < self.entries.len()
            invariant
                i <= self.entries@.len(),
                n == pending_count(self.entries@, i as int),
                n <= i,
            decreases self.entries@.len() - i,
        {
            match self.entries[i].status {
                ExportStatus::Queued | ExportStatus::Retrying { .. } => n += 1,
                _ => {},
            }
            i += 1;
        }
        n
    }

    fn has_live(&self, key: &ExportKey) -> (r: bool)
        ensures
            r == live_for(self.entries@, key.0@),
    {
        let mut i: usize = 0;
        while i < self.entries.len()
            invariant
                i <= self.entries@.len(),
                forall|k: int| 0 <= k < i ==> !((#[trigger] self.entries@[k]).key.0@ == key.0@ && !(
                self.entries@[k].status is FailedPermanent)),
            decreases self.entries@.len() - i,
        {
            let e = &self.entries[i];
            let failed = match e.status {
                ExportStatus::FailedPermanent { .. } => true,
                _ => false,
            };
            if e.key.0 == key.0 && !failed {
                return true;
            }
            i += 1;
        }
        false
    }

    fn oldest_unattempted(&self) -> (r: Option<usize>)
        ensures
            match r {
                Some(v) => victim_from(self.entries@, 0) == v,
                None => victim_from(self.entries@, 0) == -1,
            },
    {
        let mut best: Option<usize> = None;
        let mut i: usize = self.entries.len();
        while i > 0
            invariant
                i <= self.entries@.len(),
                match best {
                    Some(v) => victim_from(self.entries@, i as int) == v,
                    None => victim_from(self.entries@, i as int) == -1,
                },
            decreases i,
        {
            proof {
                lemma_victim_range(self.entries@, i as int);
            }
            i -= 1;
            let e = &self.entries[i];
            let candidate = match e.status {
                ExportStatus::Queued => e.attempts == 0,
                _ => false,
            };
            if candidate {
                best = match best {
                    Some(b) => if e.enqueued_at_ms <= self.entries[b].enqueued_at_ms {
                        Some(i)
                    } else {
                        Some(b)
                    },
                    None => Some(i),
                };
            }
        }
        best
    }

    /// Queue an export. A key already live is not queued twice. At the cap the oldest
    /// queued-but-never-attempted entry becomes failed_permanent{backlog_full} and is surfaced;
    /// when there is none, the new export is the one that fails and is surfaced: the queue never
    /// grows without bound and never silently refuses work.
    pub fn enqueue(&mut self, key: ExportKey, destination_id: &str, now_ms: u64)
        requires
            old(self).entries@.len() < usize::MAX,
        ensures
            live_for(old(self).entries@, key.0@) ==> *final(self) == *old(self),
            !live_for(old(self).entries@, key.0@) ==> {
                let full = pending_count(old(self).entries@, old(self).entries@.len() as int) >= BACKLOG_CAP;
                let v = victim_from(old(self).entries@, 0);
                &&& final(self).entries@.len() == old(self).entries@.len() + 1
                &&& final(self).entries@.last().key == key
                &&& final(self).entries@.last().destination_id@ == destination_id@
                &&& final(self).entries@.last().enqueued_at_ms == now_ms
                &&& final(self).entries@.last().attempts == 0
                &&& (full && v == -1) ==> failed_with(final(self).entries@.last().status, "backlog_full"@)
                    && final(self).entries@.drop_last() == old(self).entries@
                    && final(self).dropped@ == old(self).dropped@.push(key)
                &&& !(full && v == -1) ==> final(self).entries@.last().status == ExportStatus::Queued
                &&& (full && v >= 0) ==> failed_with(final(self).entries@[v].status, "backlog_full"@)
                    && final(self).dropped@ == old(self).dropped@.push(old(self).entries@[v].key)
                    && (forall|i: int| 0 <= i < old(self).entries@.len() && i != v ==> #[trigger] final(self).entries@[i]
                    == old(self).entries@[i])
                    && final(self).entries@[v].key == old(self).entries@[v].key
                    && final(self).entries@[v].attempts == old(self).entries@[v].attempts
                &&& !full ==> final(self).entries@.drop_last() == old(self).entries@ && final(self).dropped@ == old(self).dropped@
            },
            pending_count(old(self).entries@, old(self).entries@.len() as int) <= BACKLOG_CAP ==> pending_count(
                final(self).entries@,
                final(self).entries@.len() as int,
            ) <= BACKLOG_CAP,
    {
        if self.has_live(&key) {
            return;
        }
        let ghost before = self.entries@;
        if self.pending() >= BACKLOG_CAP {
            match self.oldest_unattempted() {
                Some(v) => {
                    proof {
                        lemma_victim_range(self.entries@, 0);
                    }
                    let victim_key = self.entries[v].key.duplicate();
                    let old_entry = &self.entries[v];
                    let updated = ExportEntry {
                        key: old_entry.key.duplicate(),
                        destination_id: old_entry.destination_id.clone(),
                        enqueued_at_ms: old_entry.enqueued_at_ms,
                        attempts: old_entry.attempts,
                        status: ExportStatus::FailedPermanent { reason: "backlog_full".to_owned() },
                    };
                    let ghost upd = updated;
                    self.entries.set(v, updated);
                    self.dropped.push(victim_key);
                    proof {
                        lemma_pending_update(before, v as int, upd, before.len() as int);
                    }
                },
                None => {
                    let ghost k = key;
                    let entry = ExportEntry {
                        key: key.duplicate(),
                        destination_id: destination_id.to_owned(),
                        enqueued_at_ms: now_ms,
                        attempts: 0,
                        status: ExportStatus::FailedPermanent { reason: "backlog_full".to_owned() },
                    };
                    let ghost e = entry;
                    self.entries.push(entry);
                    self.dropped.push(key);
                    proof {
                        lemma_pending_push(before, e, before.len() as int);
                        assert(self.entries@.drop_last() =~= before);
                    }
                    return;
                },
            }
        }
        let ghost mid = self.entries@;
        let entry = ExportEntry {
            key,
            destination_id: destination_id.to_owned(),
            enqueued_at_ms: now_ms,
            attempts: 0,
            status: ExportStatus::Queued,
        };
        let ghost e = entry;
        self.entries.push(entry);
        proof {
            lemma_pending_push(mid, e, mid.len() as int);
            assert(self.entries@.drop_last() =~= mid);
        }
    }

    /// The entries due at `now_ms`: queued ones, and retrying ones whose delay is over.
    #[verifier::spinoff_prover]
    pub fn due(&self, now_ms: u64) -> (d: Vec<&ExportEntry>)
        ensures
            d@.map_values(|e: &ExportEntry| *e) == due_entries(self.entries@, now_ms),
    {
        let mut d: Vec<&ExportEntry> = Vec::new();
        let mut i: usize = 0;
        while i < self.entries.len()
            invariant
                i <= self.entries@.len(),
                d@.map_values(|e: &ExportEntry| *e) == due_entries(self.entries@.take(i as int), now_ms),
            decreases self.entries@.len() - i,
        {
            let e = &self.entries[i];
            let due = match e.status {
                ExportStatus::Queued => true,
                ExportStatus::Retrying { not_before_ms, .. } => not_before_ms <= now_ms,
                _ => false,
            };
            let ghost before = d@;
            proof {
                assert(self.entries@.take(i + 1) =~= self.entries@.take(i as int).push(*e));
                self.entries@.take(i as int).lemma_filter_push(*e, |x: ExportEntry| is_due(x, now_ms));
            }
            if due {
                d.push(e);
                assert(d@.map_values(|e: &ExportEntry| *e) =~= before.map_values(|e: &ExportEntry| *e).push(*e));
            }
            i += 1;
        }
        assert(self.entries@.take(self.entries@.len() as int) =~= self.entries@);
        d
    }
}

/// The entries of `entries` that are due at `now_ms`, in queue order.
pub open spec fn due_entries(entries: Seq<ExportEntry>, now_ms: u64) -> Seq<ExportEntry> {
    entries.filter(|e: ExportEntry| is_due(e, now_ms))
}

/// Whether a status is a permanent failure for `reason`.
pub open spec fn failed_with(s: ExportStatus, reason: Seq<char>) -> bool {
    match s {
        ExportStatus::FailedPermanent { reason: r } => r@ == reason,
        _ => false,
    }
}

/// Whether an entry is due at `now_ms`.
pub open spec fn is_due(e: ExportEntry, now_ms: u64) -> bool {
    match e.status {
        ExportStatus::Queued => true,
        ExportStatus::Retrying { not_before_ms, .. } => not_before_ms <= now_ms,
        _ => false,
    }
}

impl ExportQueue {
    /// The attempts recorded for `key`'s entry (the first one with that key).
    pub fn attempts_of(&self, key: &ExportKey) -> (r: Option<u32>)
        ensures
            entry_index(self.entries@, key.0@, 0) >= 0 ==> r == Some(
                self.entries@[entry_index(self.entries@, key.0@, 0)].attempts,
            ),
            entry_index(self.entries@, key.0@, 0) == -1 ==> r is None,
    {
        match self.find(key) {
            Some(i) => Some(self.entries[i].attempts),
            None => None,
        }
    }

    fn find(&self, key: &ExportKey) -> (r: Option<usize>)
        ensures
            match r {
                Some(i) => entry_index(self.entries@, key.0@, 0) == i && i < self.entries@.len(),
                None => entry_index(self.entries@, key.0@, 0) == -1,
            },
    {
        let mut i: usize = 0;
        while i < self.entries.len()
            invariant
                i <= self.entries@.len(),
                entry_index(self.entries@, key.0@, 0) == entry_index(self.entries@, key.0@, i as int),
            decreases self.entries@.len() - i,
        {
            if self.entries[i].key.0 == key.0 {
                return Some(i);
            }
            i += 1;
        }
        None
    }

    /// Record an attempt of `key`'s export: success, a failure needing the user, a permanent
    /// failure, or a retryable one scheduled `delay` after `now_ms` (none: attempts exhausted).
    /// `delay` is the backoff for the new attempt count; an unknown key changes nothing.
    /// The attempt count `key`'s entry reaches with its next attempt (saturating), which picks that
    /// attempt's retry delay; `None` when no entry has the key, so nothing is recorded.
    pub fn next_attempts(&self, key: &ExportKey) -> (n: Option<u32>)
        ensures
            entry_index(self.entries@, key.0@, 0) == -1 ==> n is None,
            entry_index(self.entries@, key.0@, 0) >= 0 ==> {
                let e = self.entries@[entry_index(self.entries@, key.0@, 0)];
                n == Some(if e.attempts < u32::MAX { (e.attempts + 1) as u32 } else { u32::MAX })
            },
    {
        match self.attempts_of(key) {
            Some(a) => Some(a.saturating_add(1)),
            None => None,
        }
    }

    pub fn record_attempt_with_delay(
        &mut self,
        key: &ExportKey,
        result: Result<(), RetryClass>,
        now_ms: u64,
        delay: Option<u64>,
    )
        requires
            result == Err::<(), RetryClass>(RetryClass::Retryable) ==> (delay matches Some(d) ==> now_ms + d
                <= u64::MAX),
        ensures
            entry_index(old(self).entries@, key.0@, 0) == -1 ==> *final(self) == *old(self),
            entry_index(old(self).entries@, key.0@, 0) >= 0 ==> {
                let i = entry_index(old(self).entries@, key.0@, 0);
                let e = old(self).entries@[i];
                let attempts = if e.attempts < u32::MAX { (e.attempts + 1) as u32 } else { u32::MAX };
                &&& final(self).dropped == old(self).dropped
                &&& final(self).entries@.len() == old(self).entries@.len()
                &&& forall|k: int| 0 <= k < old(self).entries@.len() && k != i ==> #[trigger] final(self).entries@[k]
                    == old(self).entries@[k]
                &&& final(self).entries@[i].key == e.key
                &&& final(self).entries@[i].destination_id == e.destination_id
                &&& final(self).entries@[i].enqueued_at_ms == e.enqueued_at_ms
                &&& final(self).entries@[i].attempts == attempts
                &&& match result {
                    Ok(()) => final(self).entries@[i].status == ExportStatus::Succeeded,
                    Err(RetryClass::NeedsReauthentication) => final(self).entries@[i].status
                        == ExportStatus::NeedsReauthentication { attempts },
                    Err(RetryClass::Permanent) => failed_with(final(self).entries@[i].status, "permanent"@),
                    Err(RetryClass::Retryable) => match delay {
                        Some(d) => final(self).entries@[i].status == ExportStatus::Retrying {
                            attempts,
                            not_before_ms: (now_ms + d) as u64,
                        },
                        None => failed_with(final(self).entries@[i].status, "attempts_exhausted"@),
                    },
                }
            },
    {
        let i = match self.find(key) {
            Some(i) => i,
            None => return,
        };
        let e = &self.entries[i];
        let attempts = e.attempts.saturating_add(1);
        let status = match result {
            Ok(()) => ExportStatus::Succeeded,
            Err(RetryClass::NeedsReauthentication) => ExportStatus::NeedsReauthentication { attempts },
            Err(RetryClass::Permanent) => ExportStatus::FailedPermanent { reason: "permanent".to_owned() },
            Err(RetryClass::Retryable) => match delay {
                Some(d) => ExportStatus::Retrying { attempts, not_before_ms: now_ms + d },
                None => ExportStatus::FailedPermanent { reason: "attempts_exhausted".to_owned() },
            },
        };
        let updated = ExportEntry {
            key: e.key.duplicate(),
            destination_id: e.destination_id.clone(),
            enqueued_at_ms: e.enqueued_at_ms,
            attempts,
            status,
        };
        self.entries.set(i, updated);
    }
}

/// The index of the first entry for `key` at or after `i`, or -1.
pub open spec fn entry_index(es: Seq<ExportEntry>, key: Seq<char>, i: int) -> int
    decreases es.len() - i,
{
    if i < 0 || i >= es.len() {
        -1
    } else if es[i].key.0@ == key {
        i
    } else {
        entry_index(es, key, i + 1)
    }
}

/// Whether the intent row of an export says it is about to happen or happened.
#[derive(Debug, Clone, Copy, PartialEq, Eq, Structural)]
pub enum IntentState {
    Intended,
    Committed,
}

/// A call an exporter made on a destination, with what it answered.
pub enum DestCall {
    /// The destination's id and host, as it reported them.
    Reported { id: Seq<char>, host: Seq<char> },
    Find { key: Seq<char>, answer: Result<Option<RemoteIdentity>, DestError> },
    Create { key: Seq<char>, answer: Result<RemoteIdentity, DestError> },
    Update { identity: RemoteIdentity, key: Seq<char>, answer: Result<RemoteIdentity, DestError> },
}

/// The destination contract. Every implementation must be able to find its own objects by the
/// export key it stamped on them, because narrow scopes see nothing else.
pub trait Destination {
    fn id(&self) -> &str;

    fn host(&self) -> &str;

    fn find_by_external_id(&mut self, export_key: &ExportKey) -> Result<Option<RemoteIdentity>, DestError>;

    fn create(&mut self, request: &ExportRequest) -> Result<RemoteIdentity, DestError>;

    fn update(&mut self, identity: &RemoteIdentity, request: &ExportRequest) -> Result<
        RemoteIdentity,
        DestError,
    >;
}

/// What an attempt asks the destination next.
#[derive(Debug, Clone, PartialEq, Eq)]
pub enum ExportStep {
    /// Reconcile this identity by updating it.
    Update(RemoteIdentity),
    /// Look the export key up on the destination.
    Find,
    /// Create a new remote object.
    Create,
}

/// The next step: a recorded identity is updated; without one, the destination is searched by
/// the export key first; a found identity is updated, and only when the search found nothing is
/// an object created.
pub open spec fn step_spec(recorded: Option<RemoteIdentity>, found: Option<Option<RemoteIdentity>>) -> ExportStep {
    match recorded {
        Some(i) => ExportStep::Update(i),
        None => match found {
            None => ExportStep::Find,
            Some(Some(i)) => ExportStep::Update(i),
            Some(None) => ExportStep::Create,
        },
    }
}

/// What comes next in an attempt, given the recorded identity and, once searched, what the
/// search found.
pub fn export_step(recorded: &Option<RemoteIdentity>, found: &Option<Option<RemoteIdentity>>) -> (s: ExportStep)
    ensures
        s == step_spec(*recorded, *found),
{
    match recorded {
        Some(i) => ExportStep::Update(i.duplicate()),
        None => match found {
            None => ExportStep::Find,
            Some(Some(i)) => ExportStep::Update(i.duplicate()),
            Some(None) => ExportStep::Create,
        },
    }
}

/// The outcome an update answer gives.
pub open spec fn updated_outcome(answer: Result<RemoteIdentity, DestError>) -> Result<ExportOutcome, DestError> {
    match answer {
        Ok(u) => Ok(ExportOutcome::Reconciled(u)),
        Err(e) => Err(e),
    }
}

/// The attempt an export makes, read off the calls it made on the destination: the protocol of
/// `step_spec`, and what it comes to. `None` when the calls do not follow the protocol.
pub open spec fn attempt_spec(
    recorded: Option<RemoteIdentity>,
    key: Seq<char>,
    crash_after_create: bool,
    calls: Seq<DestCall>,
) -> Option<Result<ExportOutcome, DestError>> {
    match recorded {
        Some(i) => if calls.len() == 1 {
            update_of(calls[0], i, key)
        } else {
            None
        },
        None => if calls.len() >= 1 {
            match calls[0] {
                DestCall::Find { key: k, answer } => if k != key {
                    None
                } else {
                    match answer {
                        Err(e) => if calls.len() == 1 {
                            Some(Err(e))
                        } else {
                            None
                        },
                        Ok(Some(i)) => if calls.len() == 2 {
                            update_of(calls[1], i, key)
                        } else {
                            None
                        },
                        Ok(None) => if calls.len() == 2 {
                            create_of(calls[1], key, crash_after_create)
                        } else {
                            None
                        },
                    }
                },
                _ => None,
            }
        } else {
            None
        },
    }
}

/// An update of `i` for `key`, and what it comes to.
pub open spec fn update_of(c: DestCall, i: RemoteIdentity, key: Seq<char>) -> Option<Result<ExportOutcome, DestError>> {
    match c {
        DestCall::Update { identity, key: k, answer } => if identity == i && k == key {
            Some(updated_outcome(answer))
        } else {
            None
        },
        _ => None,
    }
}

/// A create for `key`, and what it comes to; a crash injected after a successful create stops
/// the attempt there.
pub open spec fn create_of(c: DestCall, key: Seq<char>, crash_after_create: bool) -> Option<Result<ExportOutcome, DestError>> {
    match c {
        DestCall::Create { key: k, answer } => if k != key {
            None
        } else {
            Some(
                match answer {
                    Ok(created) => if crash_after_create {
                        Err(DestError::Crashed)
                    } else {
                        Ok(ExportOutcome::Created(created))
                    },
                    Err(e) => Err(e),
                },
            )
        },
        _ => None,
    }
}

proof fn lemma_calls_grow(before: Seq<DestCall>, made: Seq<DestCall>, after: Seq<DestCall>)
    requires
        after == before + made,
    ensures
        after.take(before.len() as int) == before,
        after.skip(before.len() as int) == made,
        after.len() >= before.len(),
{
    assert(after.take(before.len() as int) =~= before);
    assert(after.skip(before.len() as int) =~= made);
}

/// The host a `Reported` call names.
pub open spec fn reported_host(c: DestCall) -> Seq<char> {
    match c {
        DestCall::Reported { host, .. } => host,
        _ => Seq::empty(),
    }
}

/// The id a `Reported` call names.
pub open spec fn reported_id(c: DestCall) -> Seq<char> {
    match c {
        DestCall::Reported { id, .. } => id,
        _ => Seq::empty(),
    }
}

/// What an attempt's outcome comes to for the caller of `export`.
pub open spec fn export_result(a: Result<ExportOutcome, DestError>) -> Result<ExportOutcome, ExportError> {
    match a {
        Ok(o) => Ok(o),
        Err(DestError::Crashed) => Err(ExportError::Crashed),
        Err(e) => Err(ExportError::Failed { class: classify_spec(e), error: e }),
    }
}

/// The recorded identity for a key, if any.
pub open spec fn recorded_of(ids: Map<Seq<char>, RemoteIdentity>, key: Seq<char>) -> Option<RemoteIdentity> {
    if ids.contains_key(key) {
        Some(ids[key])
    } else {
        None
    }
}

/// Persistence port for recorded identities, intent rows and the audit log, by export key.
pub trait ExportStore {
    /// The recorded identity per export key.
    spec fn identities(&self) -> Map<Seq<char>, RemoteIdentity>;

    /// The intent row per export key.
    spec fn intents(&self) -> Map<Seq<char>, IntentState>;

    /// The audit records, oldest first.
    spec fn audit_log(&self) -> Seq<AuditRecord>;

    fn recorded_identity(&self, key: &ExportKey) -> (r: Option<RemoteIdentity>)
        ensures
            r == (if self.identities().contains_key(key.0@) {
                Some(self.identities()[key.0@])
            } else {
                None
            }),
    ;

    fn record_identity(&mut self, key: &ExportKey, identity: &RemoteIdentity)
        ensures
            final(self).identities() == old(self).identities().insert(key.0@, *identity),
            final(self).intents() == old(self).intents(),
            final(self).audit_log() == old(self).audit_log(),
    ;

    fn intent(&mut self, key: &ExportKey, state: IntentState)
        ensures
            final(self).intents() == old(self).intents().insert(key.0@, state),
            final(self).identities() == old(self).identities(),
            final(self).audit_log() == old(self).audit_log(),
    ;

    fn intent_state(&self, key: &ExportKey) -> (r: Option<IntentState>)
        ensures
            r == (if self.intents().contains_key(key.0@) {
                Some(self.intents()[key.0@])
            } else {
                None
            }),
    ;

    fn append_audit(&mut self, record: AuditRecord)
        ensures
            final(self).audit_log() == old(self).audit_log().push(record),
            final(self).identities() == old(self).identities(),
            final(self).intents() == old(self).intents(),
    ;

    fn audit(&self) -> (r: Vec<AuditRecord>)
        ensures
            r@ == self.audit_log(),
    ;
}

/// Later rows win.
pub open spec fn rows_map<V>(rows: Seq<(String, V)>) -> Map<Seq<char>, V>
    decreases rows.len(),
{
    if rows.len() == 0 {
        Map::empty()
    } else {
        rows_map(rows.drop_last()).insert(rows.last().0@, rows.last().1)
    }
}

/// The last row for `key` before index `n`, if any.
pub open spec fn last_row<V>(rows: Seq<(String, V)>, key: Seq<char>, n: int) -> int
    decreases n,
{
    if n <= 0 || n > rows.len() {
        -1
    } else if rows[n - 1].0@ == key {
        n - 1
    } else {
        last_row(rows, key, n - 1)
    }
}

proof fn lemma_rows_map<V>(rows: Seq<(String, V)>, key: Seq<char>, n: int)
    requires
        0 <= n <= rows.len(),
    ensures
        rows_map(rows.take(n)).contains_key(key) <==> last_row(rows, key, n) >= 0,
        last_row(rows, key, n) >= 0 ==> last_row(rows, key, n) < n && rows_map(rows.take(n))[key]
            == rows[last_row(rows, key, n)].1,
    decreases n,
{
    if n > 0 {
        lemma_rows_map(rows, key, n - 1);
        assert(rows.take(n).drop_last() =~= rows.take(n - 1));
        assert(rows.take(n).last() == rows[n - 1]);
    } else {
        assert(rows.take(0).len() == 0);
    }
}

/// The latest row for `key`.
fn latest<V: Copy>(rows: &Vec<(String, V)>, key: &String) -> (r: Option<usize>)
    ensures
        match r {
            Some(i) => last_row(rows@, key@, rows@.len() as int) == i,
            None => last_row(rows@, key@, rows@.len() as int) == -1,
        },
{
    let mut n: usize = rows.len();
    while n > 0
        invariant
            n <= rows@.len(),
            last_row(rows@, key@, rows@.len() as int) == last_row(rows@, key@, n as int),
        decreases n,
    {
        if rows[n - 1].0 == *key {
            return Some(n - 1);
        }
        n -= 1;
    }
    None
}

/// An in-memory store: append-only rows, the latest row per key counting.
#[derive(Debug)]
pub struct MemoryExportStore {
    identities: Vec<(String, RemoteIdentity)>,
    intents: Vec<(String, IntentState)>,
    audit: Vec<AuditRecord>,
}

impl Default for MemoryExportStore {
    fn default() -> (s: MemoryExportStore)
        ensures
            s.identities() == Map::<Seq<char>, RemoteIdentity>::empty(),
            s.intents() == Map::<Seq<char>, IntentState>::empty(),
            s.audit_log().len() == 0,
    {
        MemoryExportStore { identities: Vec::new(), intents: Vec::new(), audit: Vec::new() }
    }
}

impl AuditRecord {
    /// An equal record.
    pub fn duplicate(&self) -> (r: AuditRecord)
        ensures
            r == *self,
    {
        AuditRecord {
            at_ms: self.at_ms,
            destination_id: self.destination_id.clone(),
            host: self.host.clone(),
            artifact_id: self.artifact_id,
            bytes: self.bytes,
            outcome: self.outcome,
        }
    }
}

impl ExportStore for MemoryExportStore {
    closed spec fn identities(&self) -> Map<Seq<char>, RemoteIdentity> {
        rows_map(self.identities@)
    }

    closed spec fn intents(&self) -> Map<Seq<char>, IntentState> {
        rows_map(self.intents@)
    }

    closed spec fn audit_log(&self) -> Seq<AuditRecord> {
        self.audit@
    }

    fn recorded_identity(&self, key: &ExportKey) -> (r: Option<RemoteIdentity>) {
        let mut n: usize = self.identities.len();
        proof {
            lemma_rows_map(self.identities@, key.0@, self.identities@.len() as int);
            assert(self.identities@.take(self.identities@.len() as int) =~= self.identities@);
        }
        while n > 0
            invariant
                n <= self.identities@.len(),
                last_row(self.identities@, key.0@, self.identities@.len() as int) == last_row(
                    self.identities@,
                    key.0@,
                    n as int,
                ),
            decreases n,
        {
            if self.identities[n - 1].0 == key.0 {
                proof {
                    lemma_rows_map(self.identities@, key.0@, self.identities@.len() as int);
                    assert(self.identities@.take(self.identities@.len() as int) =~= self.identities@);
                }
                assert(last_row(self.identities@, key.0@, n as int) == n - 1);
                return Some(self.identities[n - 1].1.duplicate());
            }
            n -= 1;
        }
        proof {
            lemma_rows_map(self.identities@, key.0@, self.identities@.len() as int);
            assert(self.identities@.take(self.identities@.len() as int) =~= self.identities@);
        }
        None
    }

    fn record_identity(&mut self, key: &ExportKey, identity: &RemoteIdentity) {
        let ghost before = self.identities@;
        self.identities.push((key.0.clone(), identity.duplicate()));
        assert(self.identities@.drop_last() =~= before);
    }

    fn intent(&mut self, key: &ExportKey, state: IntentState) {
        let ghost before = self.intents@;
        self.intents.push((key.0.clone(), state));
        assert(self.intents@.drop_last() =~= before);
    }

    fn intent_state(&self, key: &ExportKey) -> (r: Option<IntentState>) {
        proof {
            lemma_rows_map(self.intents@, key.0@, self.intents@.len() as int);
            assert(self.intents@.take(self.intents@.len() as int) =~= self.intents@);
        }
        match latest(&self.intents, &key.0) {
            Some(i) => Some(self.intents[i].1),
            None => None,
        }
    }

    fn append_audit(&mut self, record: AuditRecord) {
        self.audit.push(record);
    }

    fn audit(&self) -> (r: Vec<AuditRecord>) {
        let mut r: Vec<AuditRecord> = Vec::new();
        let mut i: usize = 0;
        while i < self.audit.len()
            invariant
                i <= self.audit@.len(),
                r@ == self.audit@.take(i as int),
            decreases self.audit@.len() - i,
        {
            r.push(self.audit[i].duplicate());
            assert(self.audit@.take(i + 1) =~= self.audit@.take(i as int).push(self.audit@[i as int]));
            i += 1;
        }
        assert(self.audit@.take(self.audit@.len() as int) =~= self.audit@);
        r
    }
}

/// What a successful export did.
#[derive(Debug, Clone, PartialEq, Eq)]
pub enum ExportOutcome {
    Created(RemoteIdentity),
    Reconciled(RemoteIdentity),
}

/// Why an export did not complete.
#[derive(Debug, Clone, PartialEq, Eq)]
pub enum ExportError {
    /// The host is not in the egress inventory; nothing was sent.
    UndeclaredHost { host: String },
    Failed { class: RetryClass, error: DestError },
    Crashed,
}

pub open spec fn outcome_identity(o: ExportOutcome) -> RemoteIdentity {
    match o {
        ExportOutcome::Created(i) => i,
        ExportOutcome::Reconciled(i) => i,
    }
}

/// The export procedure over any destination and store.
pub struct Exporter<S: ExportStore> {
    pub store: S,
    pub inventory: EgressInventory,
    /// Test seam: die after the remote create returns, before the identity is recorded.
    pub crash_after_create: bool,
    /// Every call made on a destination, in order, with its answer.
    pub made: Ghost<Seq<DestCall>>,
}

impl<S: ExportStore> Exporter<S> {
    /// Every call this exporter made on a destination, in order, with what it answered.
    pub open spec fn calls(&self) -> Seq<DestCall> {
        self.made@
    }

    /// An exporter over `store` with the built-in inventory.
    pub fn new(store: S) -> (e: Exporter<S>)
        ensures
            e.calls().len() == 0,
            e.store == store,
            e.inventory.host_list() == EgressInventory::embedded_hosts(),
            !e.crash_after_create,
    {
        Exporter { store, inventory: EgressInventory::embedded(), crash_after_create: false, made: Ghost(Seq::empty()) }
    }

    /// Append the audit record of one attempt.
    fn audit(
        &mut self,
        dest_id: &str,
        host: &str,
        artifact_id: ArtifactId,
        bytes: u64,
        outcome: AuditOutcome,
        now_ms: u64,
    )
        ensures
            final(self).store.audit_log().len() == old(self).store.audit_log().len() + 1,
            final(self).store.audit_log().drop_last() == old(self).store.audit_log(),
            final(self).store.audit_log().last().at_ms == now_ms,
            final(self).store.audit_log().last().destination_id@ == dest_id@,
            final(self).store.audit_log().last().host@ == host@,
            final(self).store.audit_log().last().artifact_id == artifact_id,
            final(self).store.audit_log().last().bytes == bytes,
            final(self).store.audit_log().last().outcome == outcome,
            final(self).store.identities() == old(self).store.identities(),
            final(self).store.intents() == old(self).store.intents(),
            final(self).inventory == old(self).inventory,
            final(self).crash_after_create == old(self).crash_after_create,
            final(self).made == old(self).made,
    {
        let record = AuditRecord {
            at_ms: now_ms,
            destination_id: dest_id.to_owned(),
            host: host.to_owned(),
            artifact_id,
            bytes,
            outcome,
        };
        self.store.append_audit(record);
        assert(self.store.audit_log().drop_last() =~= old(self).store.audit_log());
    }

    /// One attempt against the destination: reconcile a recorded (or, after a crash, looked-up)
    /// identity, else create; record the identity returned.
    fn attempt<D: Destination + ?Sized>(&mut self, dest: &mut D, request: &ExportRequest) -> (r: Result<
        ExportOutcome,
        DestError,
    >)
        ensures
            final(self).inventory == old(self).inventory,
            final(self).crash_after_create == old(self).crash_after_create,
            final(self).store.intents() == old(self).store.intents(),
            final(self).store.audit_log() == old(self).store.audit_log(),
            r matches Ok(o) ==> final(self).store.identities() == old(self).store.identities().insert(
                request.key.0@,
                outcome_identity(o),
            ),
            r is Err ==> final(self).store.identities() == old(self).store.identities(),
            r matches Ok(ExportOutcome::Created(_)) ==> !old(self).store.identities().contains_key(request.key.0@),
            final(self).calls().take(old(self).calls().len() as int) == old(self).calls(),
            final(self).calls().len() >= old(self).calls().len(),
            attempt_spec(
                recorded_of(old(self).store.identities(), request.key.0@),
                request.key.0@,
                old(self).crash_after_create,
                final(self).calls().skip(old(self).calls().len() as int),
            ) == Some(r),
    {
        let ghost c0 = self.made@;
        let ghost key = request.key.0@;
        let recorded = self.store.recorded_identity(&request.key);
        let mut found: Option<Option<RemoteIdentity>> = None;
        if let ExportStep::Find = export_step(&recorded, &found) {
            let answer = dest.find_by_external_id(&request.key);
            proof {
                self.made@ = self.made@.push(DestCall::Find { key, answer });
            }
            match answer {
                Ok(f) => {
                    found = Some(f);
                },
                Err(e) => {
                    proof {
                        assert(self.made@ =~= c0 + seq![DestCall::Find { key, answer }]);
                        lemma_calls_grow(c0, seq![DestCall::Find { key, answer }], self.made@);
                    }
                    return Err(e);
                },
            }
        }
        let ghost c1 = self.made@;
        let ghost made = c1.skip(c0.len() as int);
        proof {
            assert(c1 =~= c0 + made);
        }
        let known = match export_step(&recorded, &found) {
            ExportStep::Update(identity) => Some(identity),
            _ => None,
        };
        match known {
            Some(identity) => {
                let answer = dest.update(&identity, request);
                proof {
                    self.made@ = self.made@.push(DestCall::Update { identity, key, answer });
                    lemma_calls_grow(c0, made.push(DestCall::Update { identity, key, answer }), self.made@);
                }
                let updated = match answer {
                    Ok(i) => i,
                    Err(e) => return Err(e),
                };
                self.store.record_identity(&request.key, &updated);
                Ok(ExportOutcome::Reconciled(updated))
            },
            None => {
                let answer = dest.create(request);
                proof {
                    self.made@ = self.made@.push(DestCall::Create { key, answer });
                    lemma_calls_grow(c0, made.push(DestCall::Create { key, answer }), self.made@);
                }
                let created = match answer {
                    Ok(i) => i,
                    Err(e) => return Err(e),
                };
                if self.crash_after_create {
                    return Err(DestError::Crashed);
                }
                self.store.record_identity(&request.key, &created);
                Ok(ExportOutcome::Created(created))
            },
        }
    }

    /// Export `request` to `dest`. An undeclared host is refused and audited before any intent
    /// or request; otherwise the intent is committed before any remote call, the attempt is
    /// made, the intent is committed on success, and every attempt but a crash is audited.
    pub fn export<D: Destination + ?Sized>(&mut self, dest: &mut D, request: &ExportRequest, now_ms: u64) -> (r: Result<
        ExportOutcome,
        ExportError,
    >)
        ensures
            final(self).inventory == old(self).inventory,
            final(self).crash_after_create == old(self).crash_after_create,
            keys_kept(old(self).store.identities(), final(self).store.identities()),
            final(self).calls().len() > old(self).calls().len(),
            final(self).calls().take(old(self).calls().len() as int) == old(self).calls(),
            final(self).calls()[old(self).calls().len() as int] is Reported,
            ({
                let reported = final(self).calls()[old(self).calls().len() as int];
                let h = reported_host(reported);
                &&& (r matches Err(ExportError::UndeclaredHost { host }) && host@ == h)
                    <==> !old(self).inventory.declares(h)
                &&& !old(self).inventory.declares(h) ==> {
                    &&& final(self).calls().len() == old(self).calls().len() + 1
                    &&& final(self).store.audit_log().last().destination_id@ == reported_id(reported)
                    &&& final(self).store.audit_log().last().artifact_id == request.artifact_id
                    &&& final(self).store.audit_log().last().at_ms == now_ms
                }
                &&& old(self).inventory.declares(h) ==> {
                    &&& attempt_spec(
                        recorded_of(old(self).store.identities(), request.key.0@),
                        request.key.0@,
                        old(self).crash_after_create,
                        final(self).calls().skip(old(self).calls().len() as int + 1),
                    ) matches Some(a) && r == export_result(a)
                    &&& !(r matches Err(ExportError::Crashed)) ==> (final(self).store.audit_log().last().host@ == h
                        && final(self).store.audit_log().last().destination_id@ == reported_id(reported))
                }
            }),
            r matches Err(ExportError::UndeclaredHost { host }) ==> {
                &&& !old(self).inventory.declares(host@)
                &&& final(self).store.intents() == old(self).store.intents()
                &&& final(self).store.identities() == old(self).store.identities()
                &&& final(self).store.audit_log().drop_last() == old(self).store.audit_log()
                &&& final(self).store.audit_log().last().host@ == host@
                &&& final(self).store.audit_log().last().outcome == AuditOutcome::RejectedUndeclaredHost
                &&& final(self).store.audit_log().last().bytes == 0
            },
            !(r matches Err(ExportError::UndeclaredHost { .. })) ==> final(self).store.intents().contains_key(
                request.key.0@,
            ),
            r matches Ok(o) ==> {
                &&& final(self).store.intents()[request.key.0@] == IntentState::Committed
                &&& final(self).store.identities() == old(self).store.identities().insert(
                    request.key.0@,
                    outcome_identity(o),
                )
                &&& final(self).store.audit_log().drop_last() == old(self).store.audit_log()
                &&& old(self).inventory.declares(final(self).store.audit_log().last().host@)
                &&& final(self).store.audit_log().last().bytes == request.bytes
                &&& final(self).store.audit_log().last().artifact_id == request.artifact_id
                &&& final(self).store.audit_log().last().at_ms == now_ms
                &&& final(self).store.audit_log().last().outcome == match o {
                    ExportOutcome::Created(_) => AuditOutcome::Created,
                    ExportOutcome::Reconciled(_) => AuditOutcome::Reconciled,
                }
            },
            r matches Ok(ExportOutcome::Created(_)) ==> !old(self).store.identities().contains_key(request.key.0@),
            r matches Err(ExportError::Failed { class, error }) ==> {
                &&& class == classify_spec(error)
                &&& error != DestError::Crashed
                &&& final(self).store.intents()[request.key.0@] == IntentState::Intended
                &&& final(self).store.identities() == old(self).store.identities()
                &&& final(self).store.audit_log().drop_last() == old(self).store.audit_log()
                &&& old(self).inventory.declares(final(self).store.audit_log().last().host@)
                &&& final(self).store.audit_log().last().outcome == AuditOutcome::Failed { class }
            },
            r matches Err(ExportError::Crashed) ==> {
                &&& final(self).store.intents()[request.key.0@] == IntentState::Intended
                &&& final(self).store.identities() == old(self).store.identities()
                &&& final(self).store.audit_log() == old(self).store.audit_log()
            },
    {
        let dest_id = dest.id().to_owned();
        let host = dest.host().to_owned();
        let ghost c0 = self.made@;
        proof {
            self.made@ = self.made@.push(DestCall::Reported { id: dest_id@, host: host@ });
        }
        if !self.inventory.contains(host.as_str()) {
            self.audit(
                dest_id.as_str(),
                host.as_str(),
                request.artifact_id,
                0,
                AuditOutcome::RejectedUndeclaredHost,
                now_ms,
            );
            return Err(ExportError::UndeclaredHost { host });
        }
        self.store.intent(&request.key, IntentState::Intended);
        let ghost c1 = self.made@;
        let attempted = self.attempt(dest, request);
        proof {
            assert(self.made@[c0.len() as int] == self.made@.take(c1.len() as int)[c0.len() as int]);
            assert(self.made@.take(c0.len() as int) =~= self.made@.take(c1.len() as int).take(c0.len() as int));
        }
        match attempted {
            Ok(outcome) => {
                self.store.intent(&request.key, IntentState::Committed);
                let audit_outcome = match &outcome {
                    ExportOutcome::Created(_) => AuditOutcome::Created,
                    ExportOutcome::Reconciled(_) => AuditOutcome::Reconciled,
                };
                self.audit(
                    dest_id.as_str(),
                    host.as_str(),
                    request.artifact_id,
                    request.bytes,
                    audit_outcome,
                    now_ms,
                );
                Ok(outcome)
            },
            Err(DestError::Crashed) => Err(ExportError::Crashed),
            Err(error) => {
                let class = classify(&error);
                self.audit(
                    dest_id.as_str(),
                    host.as_str(),
                    request.artifact_id,
                    request.bytes,
                    AuditOutcome::Failed { class },
                    now_ms,
                );
                Err(ExportError::Failed { class, error })
            },
        }
    }
}

/// Once an identity is recorded for a key, an attempt makes one call, an update of that very
/// identity under that key: it never searches or creates, so no second remote object appears,
/// and an update that succeeds is reported as reconciled.
pub proof fn law_recorded_identity_is_only_updated(
    identity: RemoteIdentity,
    key: Seq<char>,
    crash_after_create: bool,
    calls: Seq<DestCall>,
)
    requires
        attempt_spec(Some(identity), key, crash_after_create, calls) is Some,
    ensures
        calls.len() == 1,
        calls[0] matches DestCall::Update { identity: i, key: k, answer } && i == identity && k == key && (
        answer matches Ok(u) ==> attempt_spec(Some(identity), key, crash_after_create, calls) == Some(
            Ok::<ExportOutcome, DestError>(ExportOutcome::Reconciled(u)),
        )),
{
}

/// Without a recorded identity, an attempt first looks the export key up on the destination.
/// What the lookup finds is updated, not created again (this is how a crash between the remote
/// create and the identity record is reconciled); only when the lookup finds nothing is an
/// object created, with that key.
pub proof fn law_lookup_before_create(key: Seq<char>, crash_after_create: bool, calls: Seq<DestCall>)
    requires
        attempt_spec(None, key, crash_after_create, calls) is Some,
    ensures
        calls[0] matches DestCall::Find { key: k, .. } && k == key,
        calls[0] matches DestCall::Find { answer: Ok(Some(found)), .. } ==> (calls.len() == 2 && (
        calls[1] matches DestCall::Update { identity, key: k, .. } && identity == found && k == key)),
        calls.len() == 2 && calls[1] is Create ==> (calls[0] matches DestCall::Find { answer, .. }
            && answer == Ok::<Option<RemoteIdentity>, DestError>(None)),
{
}

} // verus!
