//! Decisions carry the signal ids and the rule they were derived from; their ids are derived
//! deterministically from what they say, so a replay is byte-identical.

use crate::chunk_manifest::append_str;
use crate::ids::{hex_char, uuid_new_v5, uuid_string, uuid_text, uuid_v5, DecisionId, SignalId};
use crate::outcome::{Outcome, OutcomeView, Phase, SuppressionReason};
use crate::text::{decimal, decimal_text};
use vstd::prelude::*;
use vstd::utf8::encode_utf8;

verus! {

/// Namespace of the name-based decision identifiers (the bytes of `ma-detect-decisn`).
pub const DECISION_NAMESPACE: u128 = 0x6d612d6465746563742d64656369736eu128;

/// One character inside a JSON string literal: `"` and `\` behind a backslash; backspace, form
/// feed, line feed, carriage return and tab as their short escapes; any other character below
/// U+0020 as `\u00` and two lowercase hexadecimal digits; every other character as itself.
pub open spec fn json_escaped_char(c: char) -> Seq<char> {
    let n = c as u32;
    if c == '"' {
        seq!['\\', '"']
    } else if c == '\\' {
        seq!['\\', '\\']
    } else if n == 8 {
        seq!['\\', 'b']
    } else if n == 12 {
        seq!['\\', 'f']
    } else if c == '\n' {
        seq!['\\', 'n']
    } else if c == '\r' {
        seq!['\\', 'r']
    } else if c == '\t' {
        seq!['\\', 't']
    } else if n < 32 {
        seq!['\\', 'u', '0', '0', hex_char((n / 16) as nat), hex_char((n % 16) as nat)]
    } else {
        seq![c]
    }
}

/// The characters of `text`, each as it stands inside a JSON string literal.
pub open spec fn json_escaped(text: Seq<char>) -> Seq<char>
    decreases text.len(),
{
    if text.len() == 0 {
        Seq::empty()
    } else {
        json_escaped(text.drop_last()) + json_escaped_char(text.last())
    }
}

/// The JSON string literal of `text`: its escaped characters between double quotes.
pub open spec fn json_quoted(text: Seq<char>) -> Seq<char> {
    seq!['"'] + json_escaped(text) + seq!['"']
}

/// `serde_json::to_string` on a string slice, which cannot fail: the JSON string literal.
#[verifier::external_body]
fn json_string(text: &str) -> (r: String)
    ensures
        r@ == json_quoted(text@),
{
    serde_json::to_string(text).unwrap_or_default()
}

/// The name of a phase as the outcome's JSON writes it.
pub open spec fn phase_name(p: Phase) -> Seq<char> {
    match p {
        Phase::Start => "start"@,
        Phase::Continue => "continue"@,
        Phase::End => "end"@,
    }
}

/// The compact JSON form of an outcome (tagged by `outcome`, names in snake case).
pub open spec fn outcome_json(o: OutcomeView) -> Seq<char> {
    match o {
        OutcomeView::Determinate(p) => "{\"outcome\":\"determinate\",\"phase\":\""@ + phase_name(p)
            + "\"}"@,
        OutcomeView::Unknown => "{\"outcome\":\"unknown\"}"@,
        OutcomeView::Inconclusive => "{\"outcome\":\"inconclusive\"}"@,
        OutcomeView::Conflicting(active) =>
            "{\"outcome\":\"conflicting\",\"suppressed\":{\"lower_precedence\":{\"active_adapter_id\":"@
            + json_quoted(active) + "}}}"@,
    }
}

/// The identifiers of `ids`, in order, separated by commas.
pub open spec fn joined_ids(ids: Seq<SignalId>) -> Seq<char>
    decreases ids.len(),
{
    if ids.len() == 0 {
        Seq::empty()
    } else if ids.len() == 1 {
        uuid_text(ids[0].0)
    } else {
        joined_ids(ids.drop_last()) + ","@ + uuid_text(ids.last().0)
    }
}

/// The characters of an optional string, or nothing.
pub open spec fn or_empty(o: Option<Seq<char>>) -> Seq<char> {
    match o {
        Some(s) => s,
        None => Seq::empty(),
    }
}

/// `Some` of the characters of an optional string.
pub open spec fn opt_view(o: Option<String>) -> Option<Seq<char>> {
    match o {
        Some(s) => Some(s@),
        None => None,
    }
}

/// The text a decision identifier is derived from:
/// `version|rule|outcome-json|ids|instant|adapter`.
pub open spec fn decision_material(
    table_version: u32,
    outcome: OutcomeView,
    adapter_id: Option<Seq<char>>,
    rule_id: Seq<char>,
    evidence: Seq<SignalId>,
    produced_at_monotonic: u64,
) -> Seq<char> {
    decimal_text(table_version as nat) + "|"@ + rule_id + "|"@ + outcome_json(outcome) + "|"@
        + joined_ids(evidence) + "|"@ + decimal_text(produced_at_monotonic as nat) + "|"@
        + or_empty(adapter_id)
}

/// A decision as a value.
pub struct DecisionView {
    pub decision_id: DecisionId,
    pub outcome: OutcomeView,
    pub adapter_id: Option<Seq<char>>,
    pub subject_key: Option<Seq<char>>,
    pub rule_id: Seq<char>,
    pub evidence: Seq<SignalId>,
    pub produced_at_monotonic: u64,
}

/// The decision derived from its parts: its identifier is the name-based UUID of its material.
#[verifier::opaque]
pub open spec fn derived(
    table_version: u32,
    outcome: OutcomeView,
    adapter_id: Option<Seq<char>>,
    subject_key: Option<Seq<char>>,
    rule_id: Seq<char>,
    evidence: Seq<SignalId>,
    produced_at_monotonic: u64,
) -> DecisionView {
    DecisionView {
        decision_id: DecisionId(
            uuid_v5(
                DECISION_NAMESPACE,
                encode_utf8(
                    decision_material(
                        table_version,
                        outcome,
                        adapter_id,
                        rule_id,
                        evidence,
                        produced_at_monotonic,
                    ),
                ),
            ),
        ),
        outcome,
        adapter_id,
        subject_key,
        rule_id,
        evidence,
        produced_at_monotonic,
    }
}

#[derive(Debug, PartialEq, Eq)]
pub struct Decision {
    pub decision_id: DecisionId,
    pub outcome: Outcome,
    pub adapter_id: Option<String>,
    pub subject_key: Option<String>,
    pub rule_id: String,
    pub evidence: Vec<SignalId>,
    pub produced_at_monotonic: u64,
}

impl View for Decision {
    type V = DecisionView;

    open spec fn view(&self) -> DecisionView {
        DecisionView {
            decision_id: self.decision_id,
            outcome: self.outcome@,
            adapter_id: opt_view(self.adapter_id),
            subject_key: opt_view(self.subject_key),
            rule_id: self.rule_id@,
            evidence: self.evidence@,
            produced_at_monotonic: self.produced_at_monotonic,
        }
    }
}

/// The JSON form of an outcome.
fn outcome_text(outcome: &Outcome) -> (s: String)
    ensures
        s@ == outcome_json(outcome@),
{
    let mut s = String::new();
    match outcome {
        Outcome::Determinate { phase } => {
            append_str(&mut s, "{\"outcome\":\"determinate\",\"phase\":\"");
            match phase {
                Phase::Start => append_str(&mut s, "start"),
                Phase::Continue => append_str(&mut s, "continue"),
                Phase::End => append_str(&mut s, "end"),
            }
            append_str(&mut s, "\"}");
        },
        Outcome::Unknown => append_str(&mut s, "{\"outcome\":\"unknown\"}"),
        Outcome::Inconclusive => append_str(&mut s, "{\"outcome\":\"inconclusive\"}"),
        Outcome::Conflicting { suppressed: SuppressionReason::LowerPrecedence { active_adapter_id } } => {
            append_str(
                &mut s,
                "{\"outcome\":\"conflicting\",\"suppressed\":{\"lower_precedence\":{\"active_adapter_id\":",
            );
            let quoted = json_string(active_adapter_id.as_str());
            append_str(&mut s, quoted.as_str());
            append_str(&mut s, "}}}");
        },
    }
    assert(s@ =~= outcome_json(outcome@));
    s
}

/// The identifiers of `ids` joined by commas.
fn joined_text(ids: &Vec<SignalId>) -> (s: String)
    ensures
        s@ == joined_ids(ids@),
{
    let mut s = String::new();
    let mut i: usize = 0;
    while i < ids.len()
        invariant
            i <= ids@.len(),
            s@ == joined_ids(ids@.take(i as int)),
        decreases ids@.len() - i,
    {
        let ghost before = ids@.take(i as int);
        if i > 0 {
            append_str(&mut s, ",");
        }
        let text = uuid_string(ids[i].0);
        append_str(&mut s, text.as_str());
        proof {
            let next = ids@.take(i + 1);
            assert(next.drop_last() =~= before);
            assert(next.last() == ids@[i as int]);
            if i == 0 {
                assert(before.len() == 0);
                assert(s@ =~= uuid_text(ids@[0].0));
            } else {
                assert(s@ =~= joined_ids(before) + ","@ + uuid_text(next.last().0));
            }
        }
        i += 1;
    }
    assert(ids@.take(ids@.len() as int) =~= ids@);
    s
}

/// An equal optional string.
pub fn copy_opt(o: &Option<String>) -> (r: Option<String>)
    ensures
        opt_view(r) == opt_view(*o),
{
    match o {
        Some(s) => Some(s.clone()),
        None => None,
    }
}

/// An equal list of signal identifiers.
pub fn copy_ids(ids: &Vec<SignalId>) -> (r: Vec<SignalId>)
    ensures
        r@ == ids@,
{
    let mut r: Vec<SignalId> = Vec::new();
    let mut i: usize = 0;
    while i < ids.len()
        invariant
            i <= ids@.len(),
            r@ == ids@.take(i as int),
        decreases ids@.len() - i,
    {
        r.push(ids[i]);
        assert(ids@.take(i + 1) =~= ids@.take(i as int).push(ids@[i as int]));
        i += 1;
    }
    assert(ids@.take(ids@.len() as int) =~= ids@);
    r
}

impl Decision {
    /// Build a decision whose id is a function of the adapter table version, the rule, the
    /// outcome, the cited evidence and the instant: the same inputs always give the same id.
    pub fn derive(
        table_version: u32,
        outcome: Outcome,
        adapter_id: Option<String>,
        subject_key: Option<String>,
        rule_id: &str,
        evidence: Vec<SignalId>,
        produced_at_monotonic: u64,
    ) -> (d: Decision)
        requires
            evidence@.len() > 0,
        ensures
            d@ == derived(
                table_version,
                outcome@,
                opt_view(adapter_id),
                opt_view(subject_key),
                rule_id@,
                evidence@,
                produced_at_monotonic,
            ),
    {
        let mut material = decimal(table_version as u64);
        append_str(&mut material, "|");
        append_str(&mut material, rule_id);
        append_str(&mut material, "|");
        let json = outcome_text(&outcome);
        append_str(&mut material, json.as_str());
        append_str(&mut material, "|");
        let ids = joined_text(&evidence);
        append_str(&mut material, ids.as_str());
        append_str(&mut material, "|");
        let at = decimal(produced_at_monotonic);
        append_str(&mut material, at.as_str());
        append_str(&mut material, "|");
        match &adapter_id {
            Some(a) => append_str(&mut material, a.as_str()),
            None => {},
        }
        proof {
            assert(material@ =~= decision_material(
                table_version,
                outcome@,
                opt_view(adapter_id),
                rule_id@,
                evidence@,
                produced_at_monotonic,
            ));
        }
        let id = uuid_new_v5(DECISION_NAMESPACE, material.as_str().as_bytes());
        proof {
            reveal(derived);
        }
        Decision {
            decision_id: DecisionId(id),
            outcome,
            adapter_id,
            subject_key,
            rule_id: rule_id.to_owned(),
            evidence,
            produced_at_monotonic,
        }
    }
}

/// A non-fatal note about the pipeline, such as a disabled adapter.
#[derive(Debug, PartialEq, Eq)]
pub struct Diagnostic {
    pub adapter_id: String,
    pub message: String,
}

/// What one evaluation of a signal timeline produced.
#[derive(Debug, PartialEq, Eq)]
pub struct DetectorOutput {
    pub adapter_table_version: u32,
    pub decisions: Vec<Decision>,
    pub diagnostics: Vec<Diagnostic>,
}

/// What a derived decision says besides its identifier.
pub broadcast proof fn lemma_derived_fields(
    table_version: u32,
    outcome: OutcomeView,
    adapter_id: Option<Seq<char>>,
    subject_key: Option<Seq<char>>,
    rule_id: Seq<char>,
    evidence: Seq<SignalId>,
    produced_at_monotonic: u64,
)
    ensures
        #[trigger] derived(
            table_version,
            outcome,
            adapter_id,
            subject_key,
            rule_id,
            evidence,
            produced_at_monotonic,
        ) == (DecisionView {
            decision_id: derived(
                table_version,
                outcome,
                adapter_id,
                subject_key,
                rule_id,
                evidence,
                produced_at_monotonic,
            ).decision_id,
            outcome,
            adapter_id,
            subject_key,
            rule_id,
            evidence,
            produced_at_monotonic,
        }),
{
    reveal(derived);
}

} // verus!
