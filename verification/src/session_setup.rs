//! What the `record` command checks and names before anything starts: the pinned extension id,
//! the owner SID, and the calendar date the timeline is stamped with, computed from the wall
//! clock without a date library.

use crate::text::{chars_of, zero_padded, zero_padded_text};
use crate::chunk_manifest::append_str;
use vstd::prelude::*;

verus! {

/// Whether `y` is a Gregorian leap year.
pub open spec fn is_leap(y: int) -> bool {
    y % 4 == 0 && (y % 100 != 0 || y % 400 == 0)
}

pub open spec fn year_days(y: int) -> int {
    if is_leap(y) {
        366
    } else {
        365
    }
}

pub open spec fn month_days(y: int, m: int) -> int {
    if m == 2 {
        if is_leap(y) {
            29
        } else {
            28
        }
    } else if m == 4 || m == 6 || m == 9 || m == 11 {
        30
    } else {
        31
    }
}

/// Days from 1970-01-01 to the first day of year `y`.
pub open spec fn days_before_year(y: int) -> int
    decreases y - 1970,
{
    if y <= 1970 {
        0
    } else {
        days_before_year(y - 1) + year_days(y - 1)
    }
}

/// Days from the first of year `y` to the first of month `m`.
pub open spec fn days_before_month(y: int, m: int) -> int
    decreases m,
{
    if m <= 1 {
        0
    } else {
        days_before_month(y, m - 1) + month_days(y, m - 1)
    }
}

/// `(y, m, d)` is the date `days` days after 1970-01-01.
pub open spec fn is_date_of(days: int, y: int, m: int, d: int) -> bool {
    &&& y >= 1970
    &&& 1 <= m <= 12
    &&& 1 <= d <= month_days(y, m)
    &&& days_before_year(y) + days_before_month(y, m) + d - 1 == days
}

/// Days in 400 Gregorian years.
pub const DAYS_PER_ERA: u64 = 146_097;

proof fn lemma_first_era()
    ensures
        days_before_year(2370) == 146_097,
{
    reveal_with_fuel(days_before_year, 11);
    assert(days_before_year(1980) == 3652);
    assert(days_before_year(1990) == 7305);
    assert(days_before_year(2000) == 10957);
    assert(days_before_year(2010) == 14610);
    assert(days_before_year(2020) == 18262);
    assert(days_before_year(2030) == 21915);
    assert(days_before_year(2040) == 25567);
    assert(days_before_year(2050) == 29220);
    assert(days_before_year(2060) == 32872);
    assert(days_before_year(2070) == 36525);
    assert(days_before_year(2080) == 40177);
    assert(days_before_year(2090) == 43830);
    assert(days_before_year(2100) == 47482);
    assert(days_before_year(2110) == 51134);
    assert(days_before_year(2120) == 54786);
    assert(days_before_year(2130) == 58439);
    assert(days_before_year(2140) == 62091);
    assert(days_before_year(2150) == 65744);
    assert(days_before_year(2160) == 69396);
    assert(days_before_year(2170) == 73049);
    assert(days_before_year(2180) == 76701);
    assert(days_before_year(2190) == 80354);
    assert(days_before_year(2200) == 84006);
    assert(days_before_year(2210) == 87658);
    assert(days_before_year(2220) == 91310);
    assert(days_before_year(2230) == 94963);
    assert(days_before_year(2240) == 98615);
    assert(days_before_year(2250) == 102268);
    assert(days_before_year(2260) == 105920);
    assert(days_before_year(2270) == 109573);
    assert(days_before_year(2280) == 113225);
    assert(days_before_year(2290) == 116878);
    assert(days_before_year(2300) == 120530);
    assert(days_before_year(2310) == 124182);
    assert(days_before_year(2320) == 127834);
    assert(days_before_year(2330) == 131487);
    assert(days_before_year(2340) == 135139);
    assert(days_before_year(2350) == 138792);
    assert(days_before_year(2360) == 142444);
    assert(days_before_year(2370) == 146097);
}

proof fn lemma_era(y: int)
    requires
        y >= 1970,
    ensures
        days_before_year(y + 400) == days_before_year(y) + 146_097,
    decreases y - 1970,
{
    if y == 1970 {
        lemma_first_era();
    } else {
        lemma_era(y - 1);
        assert(is_leap(y - 1 + 400) == is_leap(y - 1));
    }
}

proof fn lemma_eras(q: nat)
    ensures
        days_before_year(1970 + 400 * (q as int)) == 146_097 * (q as int),
    decreases q,
{
    if q > 0 {
        lemma_eras((q - 1) as nat);
        lemma_era(1970 + 400 * ((q - 1) as int));
        assert(1970 + 400 * ((q - 1) as int) + 400 == 1970 + 400 * (q as int));
    }
}

proof fn lemma_year_of_months(y: int)
    ensures
        days_before_month(y, 13) == year_days(y),
{
    reveal_with_fuel(days_before_month, 13);
}

proof fn lemma_before_month_step(y: int, m: int)
    requires
        1 <= m,
    ensures
        days_before_month(y, m + 1) == days_before_month(y, m) + month_days(y, m),
{
}

/// The date `days` days after 1970-01-01: whole 400-year eras first, then years, then months.
pub fn civil_from_days(days: u64) -> (r: (u64, u64, u64))
    ensures
        is_date_of(days as int, r.0 as int, r.1 as int, r.2 as int),
{
    let eras = days / DAYS_PER_ERA;
    let mut rest = days % DAYS_PER_ERA;
    let mut y: u64 = 1970 + 400 * eras;
    proof {
        lemma_eras(eras as nat);
        assert(days == 146_097 * eras + rest);
    }
    let ghost y0 = y as int;
    let ghost rest0 = rest as int;
    let mut len: u64 = if y % 4 == 0 && (y % 100 != 0 || y % 400 == 0) {
        366
    } else {
        365
    };
    while rest >= len
        invariant
            y >= 1970,
            y0 == 1970 + 400 * eras,
            y0 <= y,
            365 * (y - y0) <= rest0 - rest,
            rest0 < 146_097,
            eras <= days / 146_097,
            days_before_year(y as int) + rest == days,
            len == year_days(y as int),
            rest < 146_097,
        decreases rest,
    {
        rest = rest - len;
        y = y + 1;
        len = if y % 4 == 0 && (y % 100 != 0 || y % 400 == 0) {
            366
        } else {
            365
        };
    }
    let mut m: u64 = 1;
    let mut month_len: u64 = 31;
    proof {
        lemma_year_of_months(y as int);
    }
    while rest >= month_len
        invariant
            1 <= m <= 12,
            y >= 1970,
            days_before_year(y as int) + days_before_month(y as int, m as int) + rest == days,
            days_before_month(y as int, m as int) + rest < year_days(y as int),
            days_before_month(y as int, 13) == year_days(y as int),
            month_len == month_days(y as int, m as int),
        decreases rest,
    {
        proof {
            lemma_before_month_step(y as int, m as int);
            if m == 12 {
                assert(days_before_month(y as int, 13) == days_before_month(y as int, 12) + month_days(y as int, 12));
                assert(false);
            }
        }
        rest = rest - month_len;
        m = m + 1;
        month_len = if m == 2 {
            if y % 4 == 0 && (y % 100 != 0 || y % 400 == 0) {
                29
            } else {
                28
            }
        } else if m == 4 || m == 6 || m == 9 || m == 11 {
            30
        } else {
            31
        };
    }
    (y, m, rest + 1)
}

/// `YYYY-MM-DD`, each part zero-padded, the year to four digits at least.
pub open spec fn iso_date_text(y: nat, m: nat, d: nat) -> Seq<char> {
    zero_padded_text(y, 4) + "-"@ + zero_padded_text(m, 2) + "-"@ + zero_padded_text(d, 2)
}

/// The UTC calendar date of a wall-clock time in milliseconds since the epoch.
pub fn iso_date(wall_ms: u64) -> (s: String)
    ensures
        exists|y: nat, m: nat, d: nat|
            is_date_of((wall_ms / 86_400_000) as int, y as int, m as int, d as int) && s@
                == #[trigger] iso_date_text(y, m, d),
{
    let (y, m, d) = civil_from_days(wall_ms / 86_400_000);
    let mut s = zero_padded(y, 4);
    append_str(&mut s, "-");
    let month = zero_padded(m, 2);
    append_str(&mut s, month.as_str());
    append_str(&mut s, "-");
    let day = zero_padded(d, 2);
    append_str(&mut s, day.as_str());
    assert(s@ == iso_date_text(y as nat, m as nat, d as nat));
    s
}

/// The id the browser assigned to the unpacked extension: 32 lowercase ASCII letters.
pub open spec fn extension_id_ok(id: Seq<char>) -> bool {
    id.len() == 32 && forall|i: int| 0 <= i < 32 ==> 'a' <= #[trigger] id[i] && id[i] <= 'z'
}

pub fn valid_extension_id(id: &str) -> (r: bool)
    ensures
        r == extension_id_ok(id@),
{
    let cs = chars_of(id);
    if cs.len() != 32 {
        return false;
    }
    let mut i: usize = 0;
    while i < cs.len()
        invariant
            i <= cs@.len(),
            cs@ == id@,
            cs@.len() == 32,
            forall|j: int| 0 <= j < i ==> 'a' <= #[trigger] cs@[j] && cs@[j] <= 'z',
        decreases cs@.len() - i,
    {
        if !('a' <= cs[i] && cs[i] <= 'z') {
            return false;
        }
        i += 1;
    }
    true
}

/// A Windows security identifier, as the owner of the token files: it starts `S-1-`.
pub open spec fn owner_sid_ok(sid: Seq<char>) -> bool {
    sid.len() >= 4 && sid[0] == 'S' && sid[1] == '-' && sid[2] == '1' && sid[3] == '-'
}

pub fn valid_owner_sid(sid: &str) -> (r: bool)
    ensures
        r == owner_sid_ok(sid@),
{
    let cs = chars_of(sid);
    cs.len() >= 4 && cs[0] == 'S' && cs[1] == '-' && cs[2] == '1' && cs[3] == '-'
}

/// Where a `record` session's round loop stands.
#[derive(Debug, Clone, Copy, PartialEq, Eq, Structural)]
pub struct RecordLoop {
    /// Rounds begun so far.
    pub rounds: u64,
    /// The capture workers were opened.
    pub capture_open: bool,
    /// Something failed at run time: the exit code will say so.
    pub failed: bool,
}

/// What a round does once its signals were persisted (or not).
#[derive(Debug, Clone, Copy, PartialEq, Eq, Structural)]
pub enum RoundAction {
    /// A signal could not be persisted: the session stops, failed.
    Stop,
    /// A target process was observed capturing and no capture runs yet: open it for that process.
    OpenCapture { pid: u32 },
    /// Go on with the round.
    Continue,
}

impl RecordLoop {
    /// A loop before its first round.
    pub fn new() -> (l: RecordLoop)
        ensures
            l == (RecordLoop { rounds: 0, capture_open: false, failed: false }),
    {
        RecordLoop { rounds: 0, capture_open: false, failed: false }
    }

    /// A round begins.
    pub fn begin_round(&mut self)
        ensures
            *final(self) == (RecordLoop {
                rounds: if old(self).rounds < u64::MAX { (old(self).rounds + 1) as u64 } else { u64::MAX },
                ..*old(self)
            }),
    {
        self.rounds = self.rounds.saturating_add(1);
    }

    /// The round's signals were persisted (`persisted`) and the audio sessions show the capture
    /// of `observed_pid`: stop on a failed write, open capture on the first observation, else go on.
    pub fn after_persist(&mut self, persisted: bool, observed_pid: Option<u32>) -> (a: RoundAction)
        ensures
            !persisted ==> a == RoundAction::Stop && *final(self) == (RecordLoop { failed: true, ..*old(self) }),
            persisted && !old(self).capture_open && observed_pid is Some ==> a == (RoundAction::OpenCapture {
                pid: observed_pid->Some_0,
            }) && *final(self) == (RecordLoop { capture_open: true, ..*old(self) }),
            persisted && (old(self).capture_open || observed_pid is None) ==> a == RoundAction::Continue
                && *final(self) == *old(self),
    {
        if !persisted {
            self.failed = true;
            return RoundAction::Stop;
        }
        match observed_pid {
            Some(pid) => {
                if !self.capture_open {
                    self.capture_open = true;
                    RoundAction::OpenCapture { pid }
                } else {
                    RoundAction::Continue
                }
            },
            None => RoundAction::Continue,
        }
    }

    /// The end of a round: whether the session stops, because a capture worker failed (a
    /// failure) or because `max_rounds` rounds have run.
    pub fn end_round(&mut self, worker_failed: bool, max_rounds: Option<u64>) -> (stop: bool)
        ensures
            worker_failed ==> stop && *final(self) == (RecordLoop { failed: true, ..*old(self) }),
            !worker_failed ==> *final(self) == *old(self) && stop == (max_rounds matches Some(m)
                && old(self).rounds >= m),
    {
        if worker_failed {
            self.failed = true;
            return true;
        }
        match max_rounds {
            Some(m) => self.rounds >= m,
            None => false,
        }
    }

    /// After the loop: a capture worker that did not finish cleanly, or an endpoint selection
    /// that could not be written, is a failure.
    pub fn finished(&mut self, clean: bool)
        ensures
            *final(self) == (RecordLoop { failed: old(self).failed || !clean, ..*old(self) }),
    {
        if !clean {
            self.failed = true;
        }
    }

    /// The exit code once the session stopped (`stopped`: its timeline and decisions were
    /// written): 0 only for a clean run.
    pub fn exit_code(&self, stopped: bool) -> (c: u8)
        ensures
            c == (if stopped && !self.failed { 0u8 } else { 1u8 }),
    {
        if stopped && !self.failed {
            0
        } else {
            1
        }
    }
}

} // verus!
