//! The diagnostic session's artefacts: where a timeline's sidecars live, and what the labels
//! sidecar and a finished session hold.

use crate::chunk_manifest::append_str;
use crate::text::{chars_of, push_char};
use vstd::prelude::*;

verus! {

/// The labels sidecar: which timeline it labels, and the labels in the order they were added.
#[derive(Debug, Clone, PartialEq, Eq)]
pub struct LabelsSidecar {
    pub timeline: String,
    pub labels: Vec<Label>,
}

/// Whether a time range of the timeline was a meeting, with a free-form note.
#[derive(Debug, Clone, PartialEq, Eq)]
pub struct Label {
    pub from_monotonic_ns: u64,
    pub to_monotonic_ns: u64,
    pub was_meeting: bool,
    pub note: String,
}

/// Where a finished session left its artefacts.
#[derive(Debug, Clone, PartialEq, Eq)]
pub struct SessionEnd {
    pub timeline: String,
    /// Present after `stop`, absent after `cancel`.
    pub decisions: Option<String>,
    pub signals_persisted: usize,
}

/// The index just past the last `c` in `s`, or 0 where it does not occur.
pub open spec fn after_last(s: Seq<char>, c: char) -> int
    decreases s.len(),
{
    if s.len() == 0 {
        0
    } else if s.last() == c {
        s.len() as int
    } else {
        after_last(s.drop_last(), c)
    }
}

/// A path's directory part, up to and including its last `/`.
pub open spec fn dir_part(p: Seq<char>) -> Seq<char> {
    p.take(after_last(p, '/'))
}

/// A path's last component: the text after its last `/`.
pub open spec fn file_name(p: Seq<char>) -> Seq<char> {
    p.skip(after_last(p, '/'))
}

/// A file name's stem: the text before its last `.`, unless that dot is the name's first
/// character, in which case the whole name.
pub open spec fn file_stem(name: Seq<char>) -> Seq<char> {
    if after_last(name, '.') > 1 {
        name.take(after_last(name, '.') - 1)
    } else {
        name
    }
}

/// `<stem>.<suffix>` next to `timeline`.
pub open spec fn sidecar_spec(timeline: Seq<char>, suffix: Seq<char>) -> Seq<char> {
    (dir_part(timeline) + file_stem(file_name(timeline))).push('.') + suffix
}

proof fn lemma_after_last(s: Seq<char>, c: char)
    ensures
        0 <= after_last(s, c) <= s.len(),
        after_last(s, c) > 0 ==> s[after_last(s, c) - 1] == c,
        forall|k: int| after_last(s, c) <= k < s.len() ==> #[trigger] s[k] != c,
    decreases s.len(),
{
    if s.len() > 0 && s.last() != c {
        lemma_after_last(s.drop_last(), c);
        assert forall|k: int| after_last(s, c) <= k < s.len() implies #[trigger] s[k] != c by {
            if k < s.len() - 1 {
                assert(s[k] == s.drop_last()[k]);
            }
        }
    }
}

proof fn lemma_after_last_at(s: Seq<char>, c: char, n: int)
    requires
        0 <= n <= s.len(),
        n > 0 ==> s[n - 1] == c,
        forall|k: int| n <= k < s.len() ==> #[trigger] s[k] != c,
    ensures
        after_last(s, c) == n,
    decreases s.len(),
{
    if s.len() > 0 && n < s.len() {
        assert(s.last() != c) by {
            assert(s[s.len() - 1] == s.last());
        }
        assert forall|k: int| n <= k < s.drop_last().len() implies #[trigger] s.drop_last()[k] != c by {
            assert(s.drop_last()[k] == s[k]);
        }
        lemma_after_last_at(s.drop_last(), c, n);
    }
}

fn find_after_last(cs: &Vec<char>, c: char) -> (n: usize)
    ensures
        n == after_last(cs@, c),
{
    let mut n: usize = cs.len();
    while n > 0 && cs[n - 1] != c
        invariant
            n <= cs@.len(),
            forall|k: int| n <= k < cs@.len() ==> #[trigger] cs@[k] != c,
        decreases n,
    {
        n -= 1;
    }
    proof {
        lemma_after_last_at(cs@, c, n as int);
    }
    n
}

fn tail_from(cs: &Vec<char>, from: usize) -> (v: Vec<char>)
    requires
        from <= cs@.len(),
    ensures
        v@ == cs@.skip(from as int),
{
    let mut v: Vec<char> = Vec::new();
    let mut i: usize = from;
    while i < cs.len()
        invariant
            from <= i <= cs@.len(),
            v@ == cs@.subrange(from as int, i as int),
        decreases cs@.len() - i,
    {
        v.push(cs[i]);
        proof {
            assert(cs@.subrange(from as int, i + 1) =~= cs@.subrange(from as int, i as int).push(cs@[i as int]));
        }
        i += 1;
    }
    proof {
        assert(cs@.subrange(from as int, cs@.len() as int) =~= cs@.skip(from as int));
    }
    v
}

fn sidecar(timeline: &str, suffix: &str) -> (p: String)
    ensures
        p@ == sidecar_spec(timeline@, suffix@),
{
    let cs = chars_of(timeline);
    let slash = find_after_last(&cs, '/');
    proof {
        lemma_after_last(cs@, '/');
    }
    let name = tail_from(&cs, slash);
    let dot = find_after_last(&name, '.');
    proof {
        lemma_after_last(name@, '.');
    }
    let stem_end = if dot > 1 {
        dot - 1
    } else {
        name.len()
    };
    let mut out = String::new();
    let mut i: usize = 0;
    while i < slash
        invariant
            i <= slash <= cs@.len(),
            out@ == cs@.take(i as int),
        decreases slash - i,
    {
        push_char(&mut out, cs[i]);
        proof {
            assert(cs@.take(i + 1) =~= cs@.take(i as int).push(cs@[i as int]));
        }
        i += 1;
    }
    let ghost dir = out@;
    let mut j: usize = 0;
    while j < stem_end
        invariant
            j <= stem_end <= name@.len(),
            out@ == dir + name@.take(j as int),
        decreases stem_end - j,
    {
        push_char(&mut out, name[j]);
        proof {
            assert(name@.take(j + 1) =~= name@.take(j as int).push(name@[j as int]));
        }
        j += 1;
    }
    push_char(&mut out, '.');
    append_str(&mut out, suffix);
    proof {
        assert(dir =~= dir_part(timeline@));
        assert(name@ =~= file_name(timeline@));
        assert(name@.take(stem_end as int) =~= file_stem(file_name(timeline@)));
    }
    out
}

/// `<stem>.decisions.json` next to the timeline.
pub fn decisions_path(timeline: &str) -> (p: String)
    ensures
        p@ == sidecar_spec(timeline@, "decisions.json"@),
{
    sidecar(timeline, "decisions.json")
}

/// `<stem>.labels.json` next to the timeline.
pub fn labels_path(timeline: &str) -> (p: String)
    ensures
        p@ == sidecar_spec(timeline@, "labels.json"@),
{
    sidecar(timeline, "labels.json")
}

} // verus!
