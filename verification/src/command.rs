//! The command line of the diagnostic harness. Without a subcommand nothing starts; every
//! command but `record` is read-only with respect to collectors and capture sources.

use crate::chunk_manifest::append_str;
use vstd::prelude::*;

verus! {

/// Why text is not a `u64`, as the standard parser reports it.
#[derive(Debug, Clone, Copy, PartialEq, Eq, Structural)]
pub enum IntError {
    Empty,
    InvalidDigit,
    PosOverflow,
}

pub open spec fn is_digit(c: char) -> bool {
    '0' <= c && c <= '9'
}

pub open spec fn digit_value(c: char) -> nat {
    (c as nat - '0' as nat) as nat
}

/// The digits of `s` from `i` on, accumulated onto `acc`, left to right.
pub open spec fn digits_from(s: Seq<char>, i: int, acc: nat) -> Result<u64, IntError>
    decreases s.len() - i,
{
    if i < 0 || i >= s.len() {
        if acc <= u64::MAX {
            Ok(acc as u64)
        } else {
            Err(IntError::PosOverflow)
        }
    } else if !is_digit(s[i]) {
        Err(IntError::InvalidDigit)
    } else if acc * 10 + digit_value(s[i]) > u64::MAX {
        Err(IntError::PosOverflow)
    } else {
        digits_from(s, i + 1, acc * 10 + digit_value(s[i]))
    }
}

/// What `str::parse::<u64>` gives: an optional leading `+`, then decimal digits only; errors
/// are found left to right.
pub open spec fn u64_parse(s: Seq<char>) -> Result<u64, IntError> {
    if s.len() == 0 {
        Err(IntError::Empty)
    } else if s[0] == '+' {
        if s.len() == 1 {
            Err(IntError::InvalidDigit)
        } else {
            digits_from(s, 1, 0)
        }
    } else {
        digits_from(s, 0, 0)
    }
}

/// The standard parser's message for each error.
pub open spec fn int_error_text(e: IntError) -> Seq<char> {
    match e {
        IntError::Empty => "cannot parse integer from empty string"@,
        IntError::InvalidDigit => "invalid digit found in string"@,
        IntError::PosOverflow => "number too large to fit in target type"@,
    }
}

/// The decimal digits of `cs` from `start` on, as a `u64`.
pub fn parse_digits(cs: &Vec<char>, start: usize) -> (r: Result<u64, IntError>)
    requires
        start <= cs@.len(),
    ensures
        r == digits_from(cs@, start as int, 0),
{
    let mut i: usize = start;
    let mut acc: u64 = 0;
    while i < cs.len()
        invariant
            start <= i <= cs@.len(),
            digits_from(cs@, start as int, 0) == digits_from(cs@, i as int, acc as nat),
        decreases cs@.len() - i,
    {
        let c = cs[i];
        if !('0' <= c && c <= '9') {
            return Err(IntError::InvalidDigit);
        }
        let d: u64 = (c as u32 - '0' as u32) as u64;
        assert(d == digit_value(c));
        if acc > 1_844_674_407_370_955_161 || (acc == 1_844_674_407_370_955_161 && d > 5) {
            return Err(IntError::PosOverflow);
        }
        acc = acc * 10 + d;
        i += 1;
    }
    Ok(acc)
}

/// Parse decimal text into a `u64`.
pub fn parse_u64(text: &str) -> (r: Result<u64, IntError>)
    ensures
        r == u64_parse(text@),
{
    let cs = crate::text::chars_of(text);
    parse_u64_chars(&cs)
}

/// Parse decimal characters into a `u64`, as `parse_u64` does their text.
pub fn parse_u64_chars(cs: &Vec<char>) -> (r: Result<u64, IntError>)
    ensures
        r == u64_parse(cs@),
{
    if cs.len() == 0 {
        return Err(IntError::Empty);
    }
    if cs[0] == '+' {
        if cs.len() == 1 {
            return Err(IntError::InvalidDigit);
        }
        return parse_digits(&cs, 1);
    }
    parse_digits(&cs, 0)
}

/// The commands `ma-diag` accepts.
#[derive(Debug, Clone, PartialEq, Eq)]
pub enum Command {
    /// No subcommand: print usage, touch nothing.
    Usage,
    /// List the adapter tables' ids, target identifiers and meeting hosts.
    List,
    /// Start a live diagnostic session under `artifact_root`, provisioning `extension_dir` when given.
    Record { artifact_root: String, extension_dir: Option<String>, max_rounds: Option<u64> },
    /// Attach a `was_meeting` label to a timeline's sidecar.
    Label { timeline: String, from_ns: u64, to_ns: u64, was_meeting: bool, note: String },
    /// Replay a recorded timeline through the detector and print the decisions.
    Replay { timeline: String, synthetic_tables: bool },
    /// Compute the echo return loss between a loopback and a microphone track directory.
    MeasureLeak {
        loopback_track: String,
        mic_track: String,
        application: String,
        alignment_uncertainty_ms: u32,
        out: Option<String>,
    },
}

/// A command as a value.
pub enum CommandView {
    Usage,
    List,
    Record { artifact_root: Seq<char>, extension_dir: Option<Seq<char>>, max_rounds: Option<u64> },
    Label { timeline: Seq<char>, from_ns: u64, to_ns: u64, was_meeting: bool, note: Seq<char> },
    Replay { timeline: Seq<char>, synthetic_tables: bool },
    MeasureLeak {
        loopback_track: Seq<char>,
        mic_track: Seq<char>,
        application: Seq<char>,
        alignment_uncertainty_ms: u32,
        out: Option<Seq<char>>,
    },
}

pub open spec fn opt_chars(o: Option<String>) -> Option<Seq<char>> {
    match o {
        Some(s) => Some(s@),
        None => None,
    }
}

impl View for Command {
    type V = CommandView;

    open spec fn view(&self) -> CommandView {
        match self {
            Command::Usage => CommandView::Usage,
            Command::List => CommandView::List,
            Command::Record { artifact_root, extension_dir, max_rounds } => CommandView::Record {
                artifact_root: artifact_root@,
                extension_dir: opt_chars(*extension_dir),
                max_rounds: *max_rounds,
            },
            Command::Label { timeline, from_ns, to_ns, was_meeting, note } => CommandView::Label {
                timeline: timeline@,
                from_ns: *from_ns,
                to_ns: *to_ns,
                was_meeting: *was_meeting,
                note: note@,
            },
            Command::Replay { timeline, synthetic_tables } => CommandView::Replay {
                timeline: timeline@,
                synthetic_tables: *synthetic_tables,
            },
            Command::MeasureLeak {
                loopback_track,
                mic_track,
                application,
                alignment_uncertainty_ms,
                out,
            } => CommandView::MeasureLeak {
                loopback_track: loopback_track@,
                mic_track: mic_track@,
                application: application@,
                alignment_uncertainty_ms: *alignment_uncertainty_ms,
                out: opt_chars(*out),
            },
        }
    }
}

/// The first index at or after `i` where `flag` occurs among `args`, or -1.
pub open spec fn position_from(args: Seq<Seq<char>>, flag: Seq<char>, i: int) -> int
    decreases args.len() - i,
{
    if i < 0 || i >= args.len() {
        -1
    } else if args[i] == flag {
        i
    } else {
        position_from(args, flag, i + 1)
    }
}

/// The argument after the first occurrence of `flag`, if both exist.
pub open spec fn flag_value(args: Seq<Seq<char>>, flag: Seq<char>) -> Option<Seq<char>> {
    let p = position_from(args, flag, 0);
    if p >= 0 && p + 1 < args.len() {
        Some(args[p + 1])
    } else {
        None
    }
}

/// Whether `flag` occurs among `args`.
pub open spec fn has_flag(args: Seq<Seq<char>>, flag: Seq<char>) -> bool {
    position_from(args, flag, 0) >= 0
}

/// The integer after `flag`: none when absent, an error naming the flag when not a `u64`.
pub open spec fn int_flag(args: Seq<Seq<char>>, flag: Seq<char>) -> Result<Option<u64>, Seq<char>> {
    match flag_value(args, flag) {
        None => Ok(None),
        Some(v) => match u64_parse(v) {
            Ok(n) => Ok(Some(n)),
            Err(e) => Err(flag + ": "@ + int_error_text(e)),
        },
    }
}

pub open spec fn args_view(args: Seq<String>) -> Seq<Seq<char>> {
    args.map_values(|a: String| a@)
}

/// `record`: needs the artifact root; the extension directory and the round limit are optional.
pub open spec fn record_spec(a: Seq<Seq<char>>) -> Result<CommandView, Seq<char>> {
    match flag_value(a, "--artifact-root"@) {
        None => Err("record needs --artifact-root DIR"@),
        Some(root) => match int_flag(a, "--max-rounds"@) {
            Err(e) => Err(e),
            Ok(rounds) => Ok(
                CommandView::Record {
                    artifact_root: root,
                    extension_dir: flag_value(a, "--extension-dir"@),
                    max_rounds: rounds,
                },
            ),
        },
    }
}

/// `label`: needs the timeline, both instants and a `true`/`false` verdict; the note is
/// optional.
pub open spec fn label_spec(a: Seq<Seq<char>>) -> Result<CommandView, Seq<char>> {
    match flag_value(a, "--timeline"@) {
        None => Err("label needs --timeline FILE"@),
        Some(timeline) => match int_flag(a, "--from-ns"@) {
            Err(e) => Err(e),
            Ok(None) => Err("label needs --from-ns"@),
            Ok(Some(from_ns)) => match int_flag(a, "--to-ns"@) {
                Err(e) => Err(e),
                Ok(None) => Err("label needs --to-ns"@),
                Ok(Some(to_ns)) => {
                    let verdict = flag_value(a, "--was-meeting"@);
                    if verdict == Some("true"@) || verdict == Some("false"@) {
                        Ok(
                            CommandView::Label {
                                timeline,
                                from_ns,
                                to_ns,
                                was_meeting: verdict == Some("true"@),
                                note: match flag_value(a, "--note"@) {
                                    Some(n) => n,
                                    None => Seq::empty(),
                                },
                            },
                        )
                    } else {
                        Err("label needs --was-meeting true|false"@)
                    }
                },
            },
        },
    }
}

/// `measure-leak`: needs both tracks, the application and an alignment that fits a `u32`; the
/// output file is optional.
pub open spec fn measure_leak_spec(a: Seq<Seq<char>>) -> Result<CommandView, Seq<char>> {
    match flag_value(a, "--loopback-track"@) {
        None => Err("measure-leak needs --loopback-track DIR"@),
        Some(loopback_track) => match flag_value(a, "--mic-track"@) {
            None => Err("measure-leak needs --mic-track DIR"@),
            Some(mic_track) => match flag_value(a, "--application"@) {
                None => Err("measure-leak needs --application ID"@),
                Some(application) => match int_flag(a, "--alignment-uncertainty-ms"@) {
                    Err(e) => Err(e),
                    Ok(None) => Err("measure-leak needs --alignment-uncertainty-ms N"@),
                    Ok(Some(ms)) => if ms > u32::MAX {
                        Err("--alignment-uncertainty-ms is too large"@)
                    } else {
                        Ok(
                            CommandView::MeasureLeak {
                                loopback_track,
                                mic_track,
                                application,
                                alignment_uncertainty_ms: ms as u32,
                                out: flag_value(a, "--out"@),
                            },
                        )
                    },
                },
            },
        },
    }
}

/// The command an argument list names.
pub open spec fn command_spec(a: Seq<Seq<char>>) -> Result<CommandView, Seq<char>> {
    if a.len() == 0 {
        Ok(CommandView::Usage)
    } else if a[0] == "list"@ {
        Ok(CommandView::List)
    } else if a[0] == "record"@ {
        record_spec(a)
    } else if a[0] == "label"@ {
        label_spec(a)
    } else if a[0] == "replay"@ {
        match flag_value(a, "--timeline"@) {
            None => Err("replay needs --timeline FILE"@),
            Some(timeline) => Ok(
                CommandView::Replay { timeline, synthetic_tables: has_flag(a, "--synthetic-tables"@) },
            ),
        }
    } else if a[0] == "measure-leak"@ {
        measure_leak_spec(a)
    } else {
        Err("unknown subcommand "@ + a[0])
    }
}

pub open spec fn command_result_view(r: Result<Command, String>) -> Result<CommandView, Seq<char>> {
    match r {
        Ok(c) => Ok(c@),
        Err(e) => Err(e@),
    }
}

proof fn lemma_position_step(a: Seq<Seq<char>>, flag: Seq<char>, i: int)
    requires
        0 <= i < a.len(),
        a[i] != flag,
    ensures
        position_from(a, flag, i) == position_from(a, flag, i + 1),
{
}

proof fn lemma_position_range(a: Seq<Seq<char>>, flag: Seq<char>, i: int)
    requires
        0 <= i,
    ensures
        position_from(a, flag, i) == -1 || (i <= position_from(a, flag, i) < a.len() && a[position_from(a, flag, i)] == flag),
    decreases a.len() - i,
{
    if i < a.len() && a[i] != flag {
        lemma_position_range(a, flag, i + 1);
    }
}

/// The index of the first occurrence of `flag`.
fn find_flag(args: &[String], flag: &str) -> (r: Option<usize>)
    ensures
        match r {
            Some(i) => position_from(args_view(args@), flag@, 0) == i && i < args@.len(),
            None => position_from(args_view(args@), flag@, 0) == -1,
        },
{
    let ghost a = args_view(args@);
    let mut i: usize = 0;
    while i < args.len()
        invariant
            i <= args@.len(),
            a == args_view(args@),
            position_from(a, flag@, 0) == position_from(a, flag@, i as int),
        decreases args@.len() - i,
    {
        if crate::text::same_text(args[i].as_str(), flag) {
            return Some(i);
        }
        proof {
            lemma_position_step(a, flag@, i as int);
        }
        i += 1;
    }
    None
}

/// The argument after `flag`.
fn value(args: &[String], flag: &str) -> (r: Option<String>)
    ensures
        opt_chars(r) == flag_value(args_view(args@), flag@),
{
    match find_flag(args, flag) {
        Some(i) => if i < args.len() - 1 {
            Some(args[i + 1].clone())
        } else {
            None
        },
        None => None,
    }
}

/// The integer after `flag`.
fn int_value(args: &[String], flag: &str) -> (r: Result<Option<u64>, String>)
    ensures
        match r {
            Ok(n) => int_flag(args_view(args@), flag@) == Ok::<Option<u64>, Seq<char>>(n),
            Err(e) => int_flag(args_view(args@), flag@) == Err::<Option<u64>, Seq<char>>(e@),
        },
{
    match value(args, flag) {
        None => Ok(None),
        Some(v) => match parse_u64(v.as_str()) {
            Ok(n) => Ok(Some(n)),
            Err(e) => {
                let mut msg = flag.to_owned();
                append_str(&mut msg, ": ");
                match e {
                    IntError::Empty => append_str(&mut msg, "cannot parse integer from empty string"),
                    IntError::InvalidDigit => append_str(&mut msg, "invalid digit found in string"),
                    IntError::PosOverflow => append_str(&mut msg, "number too large to fit in target type"),
                }
                Err(msg)
            },
        },
    }
}

/// An owned copy of a literal.
fn owned(text: &str) -> (s: String)
    ensures
        s@ == text@,
{
    text.to_owned()
}

impl Command {
    /// Parse the harness's arguments (without the program name). No argument is `Usage`; each
    /// subcommand checks its required flags in order and reports the first one missing or
    /// malformed.
    pub fn parse(args: &[String]) -> (r: Result<Command, String>)
        ensures
            command_result_view(r) == command_spec(args_view(args@)),
    {
        let ghost a = args_view(args@);
        if args.len() == 0 {
            return Ok(Command::Usage);
        }
        let sub = args[0].as_str();
        assert(a[0] == sub@);
        if crate::text::same_text(sub, "list") {
            return Ok(Command::List);
        }
        if crate::text::same_text(sub, "record") {
            let root = match value(args, "--artifact-root") {
                Some(v) => v,
                None => return Err(owned("record needs --artifact-root DIR")),
            };
            let max_rounds = match int_value(args, "--max-rounds") {
                Ok(n) => n,
                Err(e) => return Err(e),
            };
            return Ok(
                Command::Record {
                    artifact_root: root,
                    extension_dir: value(args, "--extension-dir"),
                    max_rounds,
                },
            );
        }
        if crate::text::same_text(sub, "label") {
            let timeline = match value(args, "--timeline") {
                Some(v) => v,
                None => return Err(owned("label needs --timeline FILE")),
            };
            let from_ns = match int_value(args, "--from-ns") {
                Ok(Some(n)) => n,
                Ok(None) => return Err(owned("label needs --from-ns")),
                Err(e) => return Err(e),
            };
            let to_ns = match int_value(args, "--to-ns") {
                Ok(Some(n)) => n,
                Ok(None) => return Err(owned("label needs --to-ns")),
                Err(e) => return Err(e),
            };
            let was_meeting = match value(args, "--was-meeting") {
                Some(v) => if crate::text::same_text(v.as_str(), "true") {
                    true
                } else if crate::text::same_text(v.as_str(), "false") {
                    false
                } else {
                    return Err(owned("label needs --was-meeting true|false"));
                },
                None => return Err(owned("label needs --was-meeting true|false")),
            };
            let note = match value(args, "--note") {
                Some(n) => n,
                None => String::new(),
            };
            return Ok(Command::Label { timeline, from_ns, to_ns, was_meeting, note });
        }
        if crate::text::same_text(sub, "replay") {
            let timeline = match value(args, "--timeline") {
                Some(v) => v,
                None => return Err(owned("replay needs --timeline FILE")),
            };
            let synthetic_tables = match find_flag(args, "--synthetic-tables") {
                Some(_) => true,
                None => false,
            };
            return Ok(Command::Replay { timeline, synthetic_tables });
        }
        if crate::text::same_text(sub, "measure-leak") {
            let loopback_track = match value(args, "--loopback-track") {
                Some(v) => v,
                None => return Err(owned("measure-leak needs --loopback-track DIR")),
            };
            let mic_track = match value(args, "--mic-track") {
                Some(v) => v,
                None => return Err(owned("measure-leak needs --mic-track DIR")),
            };
            let application = match value(args, "--application") {
                Some(v) => v,
                None => return Err(owned("measure-leak needs --application ID")),
            };
            let ms = match int_value(args, "--alignment-uncertainty-ms") {
                Ok(Some(n)) => n,
                Ok(None) => return Err(owned("measure-leak needs --alignment-uncertainty-ms N")),
                Err(e) => return Err(e),
            };
            if ms > 0xffff_ffff {
                return Err(owned("--alignment-uncertainty-ms is too large"));
            }
            return Ok(
                Command::MeasureLeak {
                    loopback_track,
                    mic_track,
                    application,
                    alignment_uncertainty_ms: ms as u32,
                    out: value(args, "--out"),
                },
            );
        }
        let mut msg = owned("unknown subcommand ");
        append_str(&mut msg, sub);
        Err(msg)
    }
}

} // verus!
