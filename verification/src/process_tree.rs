//! The process-tree root the detector joins tab and microphone facts on: the topmost ancestor
//! with the same image name inside a process snapshot.

use crate::rollback::ascii_lower;
use crate::text::chars_of;
use vstd::prelude::*;

verus! {

/// One process of a snapshot.
#[derive(Debug, Clone, PartialEq, Eq)]
pub struct ProcessRecord {
    pub pid: u32,
    pub parent_pid: u32,
    pub image_name: String,
}

/// Parent steps taken at most before the walk stops where it is.
pub const MAX_HOPS: u32 = 64;

/// The first index of a record with `pid`, or the snapshot's length.
pub open spec fn find_pid(snapshot: Seq<ProcessRecord>, pid: u32) -> int
    decreases snapshot.len(),
{
    if snapshot.len() == 0 {
        0
    } else if snapshot[0].pid == pid {
        0
    } else {
        1 + find_pid(snapshot.drop_first(), pid)
    }
}

/// Two names equal up to ASCII case.
pub open spec fn same_image(a: Seq<char>, b: Seq<char>) -> bool {
    ascii_lower(a) == ascii_lower(b)
}

/// Climb from the record at `cur` through parents with the same image as `image`; stop at a
/// missing parent, a record that is its own parent, another image, or after `MAX_HOPS` steps
/// past the first.
pub open spec fn climb(snapshot: Seq<ProcessRecord>, image: Seq<char>, cur: int, hops: nat) -> u32
    decreases MAX_HOPS + 1 - hops,
{
    let p = find_pid(snapshot, snapshot[cur].parent_pid);
    if p >= snapshot.len() || snapshot[p].pid == snapshot[cur].pid || !same_image(
        snapshot[p].image_name@,
        image,
    ) || hops > MAX_HOPS {
        snapshot[cur].pid
    } else {
        climb(snapshot, image, p, hops + 1)
    }
}

/// The root of `pid`'s tree, or `None` when `pid` is not in the snapshot.
pub open spec fn tree_root_spec(snapshot: Seq<ProcessRecord>, pid: u32) -> Option<u32> {
    let i = find_pid(snapshot, pid);
    if i >= snapshot.len() {
        None
    } else {
        Some(climb(snapshot, snapshot[i].image_name@, i, 0))
    }
}

proof fn lemma_find_pid(snapshot: Seq<ProcessRecord>, pid: u32)
    ensures
        0 <= find_pid(snapshot, pid) <= snapshot.len(),
        find_pid(snapshot, pid) < snapshot.len() ==> snapshot[find_pid(snapshot, pid)].pid == pid,
        forall|k: int| 0 <= k < find_pid(snapshot, pid) ==> #[trigger] snapshot[k].pid != pid,
    decreases snapshot.len(),
{
    if snapshot.len() > 0 && snapshot[0].pid != pid {
        lemma_find_pid(snapshot.drop_first(), pid);
        assert forall|k: int| 0 <= k < find_pid(snapshot, pid) implies #[trigger] snapshot[k].pid
            != pid by {
            if k > 0 {
                assert(snapshot[k] == snapshot.drop_first()[k - 1]);
            }
        }
    }
}

proof fn lemma_find_pid_at(snapshot: Seq<ProcessRecord>, pid: u32, n: int)
    requires
        0 <= n <= snapshot.len(),
        n < snapshot.len() ==> snapshot[n].pid == pid,
        forall|k: int| 0 <= k < n ==> #[trigger] snapshot[k].pid != pid,
    ensures
        find_pid(snapshot, pid) == n,
    decreases n,
{
    if n > 0 {
        assert(snapshot[0].pid != pid);
        assert forall|k: int| 0 <= k < n - 1 implies #[trigger] snapshot.drop_first()[k].pid != pid by {
            assert(snapshot.drop_first()[k] == snapshot[k + 1]);
        }
        lemma_find_pid_at(snapshot.drop_first(), pid, n - 1);
    }
}

fn find(snapshot: &[ProcessRecord], pid: u32) -> (i: usize)
    ensures
        i == find_pid(snapshot@, pid),
{
    let mut i: usize = 0;
    while i < snapshot.len() && snapshot[i].pid != pid
        invariant
            i <= snapshot@.len(),
            forall|k: int| 0 <= k < i ==> #[trigger] snapshot@[k].pid != pid,
        decreases snapshot@.len() - i,
    {
        i += 1;
    }
    proof {
        lemma_find_pid_at(snapshot@, pid, i as int);
    }
    i
}

fn same_name(a: &str, b: &str) -> (r: bool)
    ensures
        r == same_image(a@, b@),
{
    let x = chars_of(a);
    let y = chars_of(b);
    if x.len() != y.len() {
        proof {
            assert(ascii_lower(a@).len() != ascii_lower(b@).len());
        }
        return false;
    }
    let mut i: usize = 0;
    while i < x.len()
        invariant
            i <= x@.len(),
            x@.len() == y@.len(),
            x@ == a@,
            y@ == b@,
            forall|k: int| 0 <= k < i ==> ascii_lower(a@)[k] == ascii_lower(b@)[k],
        decreases x@.len() - i,
    {
        let (p, q) = (x[i], y[i]);
        let lp: u32 = if 'A' <= p && p <= 'Z' {
            (p as u32) + 32
        } else {
            p as u32
        };
        let lq: u32 = if 'A' <= q && q <= 'Z' {
            (q as u32) + 32
        } else {
            q as u32
        };
        proof {
            vstd::utf8::char_u32_cast(ascii_lower(a@)[i as int], lp);
            vstd::utf8::char_u32_cast(ascii_lower(b@)[i as int], lq);
            assert((ascii_lower(a@)[i as int] as u32) == lp);
            assert((ascii_lower(b@)[i as int] as u32) == lq);
        }
        if lp != lq {
            return false;
        }
        i += 1;
    }
    proof {
        assert(ascii_lower(a@) =~= ascii_lower(b@));
    }
    true
}

/// The topmost ancestor of `pid` with the same image name (compared without regard to ASCII
/// case) inside the snapshot; `None` when `pid` is not in it.
pub fn process_tree_root(snapshot: &[ProcessRecord], pid: u32) -> (r: Option<u32>)
    ensures
        r == tree_root_spec(snapshot@, pid),
{
    let start = find(snapshot, pid);
    proof {
        lemma_find_pid(snapshot@, pid);
    }
    if start >= snapshot.len() {
        return None;
    }
    let image = &snapshot[start].image_name;
    let mut current: usize = start;
    let mut hops: u32 = 0;
    loop
        invariant
            current < snapshot@.len(),
            hops <= MAX_HOPS + 1,
            start < snapshot@.len(),
            start == find_pid(snapshot@, pid),
            *image == snapshot@[start as int].image_name,
            climb(snapshot@, image@, start as int, 0) == climb(snapshot@, image@, current as int, hops as nat),
        decreases MAX_HOPS + 1 - hops,
    {
        let parent = find(snapshot, snapshot[current].parent_pid);
        proof {
            lemma_find_pid(snapshot@, snapshot@[current as int].parent_pid);
        }
        if parent >= snapshot.len() || snapshot[parent].pid == snapshot[current].pid || !same_name(
            snapshot[parent].image_name.as_str(),
            image.as_str(),
        ) || hops > MAX_HOPS {
            return Some(snapshot[current].pid);
        }
        current = parent;
        hops += 1;
    }
}

} // verus!
