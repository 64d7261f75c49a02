//! Root-relative artifact addressing: an artifact is a root identifier plus a relative path
//! composed only of generated identifiers and typed names, so relocating the configurable root
//! invalidates nothing.

use crate::error::CoreError;
use crate::ids::RootId;
use crate::text::{chars_of, push_char, string_of};
use vstd::prelude::*;

verus! {

/// The typed directory names an artifact path may use besides generated identifiers.
#[derive(Debug, Clone, Copy, PartialEq, Eq, Structural)]
pub enum ArtifactKind {
    Chunks,
    Consolidated,
    Transcript,
    Summary,
    Exports,
}

/// The directory name of each kind.
pub open spec fn kind_dir(kind: ArtifactKind) -> Seq<char> {
    match kind {
        ArtifactKind::Chunks => seq!['c', 'h', 'u', 'n', 'k', 's'],
        ArtifactKind::Consolidated => seq!['t', 'r', 'a', 'c', 'k', 's'],
        ArtifactKind::Transcript => seq!['t', 'r', 'a', 'n', 's', 'c', 'r', 'i', 'p', 't'],
        ArtifactKind::Summary => seq!['s', 'u', 'm', 'm', 'a', 'r', 'y'],
        ArtifactKind::Exports => seq!['e', 'x', 'p', 'o', 'r', 't', 's'],
    }
}

impl ArtifactKind {
    pub fn dir_name(self) -> (s: &'static str)
        ensures
            s@ == kind_dir(self),
    {
        match self {
            ArtifactKind::Chunks => {
                proof { reveal_strlit("chunks"); }
                "chunks"
            },
            ArtifactKind::Consolidated => {
                proof { reveal_strlit("tracks"); }
                "tracks"
            },
            ArtifactKind::Transcript => {
                proof { reveal_strlit("transcript"); }
                "transcript"
            },
            ArtifactKind::Summary => {
                proof { reveal_strlit("summary"); }
                "summary"
            },
            ArtifactKind::Exports => {
                proof { reveal_strlit("exports"); }
                "exports"
            },
        }
    }
}

/// A character a path segment may hold: ASCII letters and digits, `.`, `_`, `-`.
pub open spec fn segment_char(c: char) -> bool {
    ('a' <= c <= 'z') || ('A' <= c <= 'Z') || ('0' <= c <= '9') || c == '.' || c == '_' || c == '-'
}

/// A valid segment: 1 to 128 allowed characters, not starting with `.` (so neither `.` nor `..`).
pub open spec fn valid_segment(s: Seq<char>) -> bool {
    &&& 0 < s.len() <= 128
    &&& s[0] != '.'
    &&& forall|i: int| 0 <= i < s.len() ==> segment_char(#[trigger] s[i])
}

fn is_segment_char(c: char) -> (b: bool)
    ensures
        b == segment_char(c),
{
    ('a' <= c && c <= 'z') || ('A' <= c && c <= 'Z') || ('0' <= c && c <= '9') || c == '.' || c
        == '_' || c == '-'
}

/// One validated path segment: no separators, no `.`/`..`, only ASCII letters, digits, `.`, `_`,
/// `-`.
#[derive(Debug, Clone, PartialEq, Eq)]
pub struct PathSegment(String);

impl PathSegment {
    /// The text of the segment.
    pub closed spec fn text(&self) -> Seq<char> {
        self.0@
    }

    pub fn new(segment: &str) -> (r: Result<Self, CoreError>)
        ensures
            valid_segment(segment@) ==> (r matches Ok(p) && p.text() == segment@),
            !valid_segment(segment@) ==> (r matches Err(CoreError::InvalidPathSegment(t)) && t@
                == segment@),
    {
        let cs = chars_of(segment);
        let mut ok = cs.len() > 0 && cs.len() <= 128 && cs[0] != '.';
        let mut i: usize = 0;
        while i < cs.len()
            invariant
                i <= cs@.len(),
                ok == (0 < cs@.len() <= 128 && cs@[0] != '.' && forall|j: int|
                    0 <= j < i ==> segment_char(#[trigger] cs@[j])),
            decreases cs@.len() - i,
        {
            if !is_segment_char(cs[i]) {
                ok = false;
            }
            i += 1;
        }
        if ok {
            Ok(PathSegment(segment.to_owned()))
        } else {
            Err(CoreError::InvalidPathSegment(segment.to_owned()))
        }
    }

    pub fn as_str(&self) -> (s: &str)
        ensures
            s@ == self.text(),
    {
        self.0.as_str()
    }
}

/// Segments joined by `/`.
pub open spec fn joined(segments: Seq<Seq<char>>) -> Seq<char>
    decreases segments.len(),
{
    if segments.len() == 0 {
        Seq::empty()
    } else if segments.len() == 1 {
        segments[0]
    } else {
        joined(segments.drop_last()) + seq!['/'] + segments.last()
    }
}

/// A reference to a stored artifact: root identifier plus relative path.
#[derive(Debug, Clone, PartialEq, Eq)]
pub struct ArtifactRef {
    pub root: RootId,
    pub segments: Vec<PathSegment>,
}

impl ArtifactRef {
    /// The texts of the segments.
    pub open spec fn segment_texts(&self) -> Seq<Seq<char>> {
        self.segments@.map_values(|p: PathSegment| p.text())
    }

    pub fn new(root: RootId, segments: Vec<PathSegment>) -> (r: Result<Self, CoreError>)
        ensures
            segments@.len() == 0 ==> (r matches Err(CoreError::InvalidPathSegment(t)) && t@.len()
                == 0),
            segments@.len() > 0 ==> r == Ok::<Self, CoreError>(ArtifactRef { root, segments }),
    {
        if segments.len() == 0 {
            return Err(CoreError::InvalidPathSegment(String::new()));
        }
        Ok(ArtifactRef { root, segments })
    }

    /// The root-relative path with `/` separators, identical in rows, paths and payloads.
    pub fn relative_path(&self) -> (s: String)
        ensures
            s@ == joined(self.segment_texts()),
    {
        let mut out: Vec<char> = Vec::new();
        let mut i: usize = 0;
        while i < self.segments.len()
            invariant
                i <= self.segments@.len(),
                out@ == joined(self.segment_texts().take(i as int)),
            decreases self.segments@.len() - i,
        {
            let part = chars_of(self.segments[i].as_str());
            let ghost before = out@;
            if i > 0 {
                out.push('/');
            }
            let mut k: usize = 0;
            let ghost mid = out@;
            while k < part.len()
                invariant
                    k <= part@.len(),
                    out@ == mid + part@.take(k as int),
                decreases part@.len() - k,
            {
                out.push(part[k]);
                assert(part@.take(k + 1) == part@.take(k as int).push(part@[k as int]));
                k += 1;
            }
            assert(part@.take(part@.len() as int) == part@);
            assert(self.segment_texts().take(i + 1).drop_last() == self.segment_texts().take(i as int));
            if i == 0 {
                assert(before.len() == 0);
                assert(out@ =~= joined(self.segment_texts().take(1)));
            } else {
                assert(out@ =~= joined(self.segment_texts().take(i + 1)));
            }
            i += 1;
        }
        assert(self.segment_texts().take(self.segments@.len() as int) == self.segment_texts());
        string_of(out.as_slice())
    }

    /// The path under `root_dir` (the directory the root currently points at): the root
    /// directory, a `/` unless it is empty or already ends with one, then the relative path.
    pub fn resolve(&self, root_dir: &str) -> (s: String)
        ensures
            s@ == (if root_dir@.len() == 0 || root_dir@.last() == '/' {
                root_dir@
            } else {
                root_dir@.push('/')
            }) + joined(self.segment_texts()),
    {
        let dir = chars_of(root_dir);
        let mut out = root_dir.to_owned();
        if dir.len() > 0 && dir[dir.len() - 1] != '/' {
            push_char(&mut out, '/');
        }
        let rel = chars_of(self.relative_path().as_str());
        let ghost start = out@;
        let mut i: usize = 0;
        while i < rel.len()
            invariant
                i <= rel@.len(),
                out@ == start + rel@.take(i as int),
            decreases rel@.len() - i,
        {
            push_char(&mut out, rel[i]);
            assert(rel@.take(i + 1) == rel@.take(i as int).push(rel@[i as int]));
            i += 1;
        }
        assert(rel@.take(rel@.len() as int) == rel@);
        out
    }
}

} // verus!
