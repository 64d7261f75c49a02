//! The release public keys a client trusts, and their rollover. A key is held as its 32-byte
//! Ed25519 encoding; keys are found by id, and listed in ascending id order.

use crate::text::same_text;
use vstd::prelude::*;

verus! {

/// The name a manifest header gives its signing key.
pub type KeyId = String;

/// What `hex::decode` reads from one character: its value as a hexadecimal digit of either case.
pub open spec fn hex_digit_value(c: char) -> Option<nat> {
    if '0' <= c && c <= '9' {
        Some((c as nat - 48) as nat)
    } else if 'a' <= c && c <= 'f' {
        Some((c as nat - 87) as nat)
    } else if 'A' <= c && c <= 'F' {
        Some((c as nat - 55) as nat)
    } else {
        None
    }
}

/// What `hex::decode` gives: for an even number of hexadecimal digits, one byte per pair, high
/// digit first; `None` for anything else.
pub open spec fn hex_decoded(s: Seq<char>) -> Option<Seq<u8>> {
    if s.len() % 2 == 0 && forall|i: int| 0 <= i < s.len() ==> (#[trigger] hex_digit_value(s[i])) is Some {
        Some(
            Seq::new(
                s.len() / 2,
                |i: int| (hex_digit_value(s[2 * i])->0 * 16 + hex_digit_value(s[2 * i + 1])->0) as u8,
            ),
        )
    } else {
        None
    }
}

/// `hex::decode`: the bytes of an even-length run of hexadecimal digits of either case, or an
/// error for an odd length or any other character.
#[verifier::external_body]
pub(crate) fn hex_decode(text: &str) -> (r: Option<Vec<u8>>)
    ensures
        match r {
            Some(v) => hex_decoded(text@) == Some(v@),
            None => hex_decoded(text@) is None,
        },
{
    hex::decode(text).ok()
}

/// Whether 32 bytes are the compressed encoding of a curve point, as
/// `VerifyingKey::from_bytes` decides.
pub uninterp spec fn ed25519_point_valid(bytes: Seq<u8>) -> bool;

/// `ed25519_dalek::VerifyingKey::from_bytes`, asked only whether it succeeds.
#[verifier::external_body]
pub(crate) fn verifying_key_valid(bytes: &[u8; 32]) -> (ok: bool)
    ensures
        ok == ed25519_point_valid(bytes@),
{
    ed25519_dalek::VerifyingKey::from_bytes(bytes).is_ok()
}

/// The key a hex text names: 64 hexadecimal digits encoding a valid curve point.
pub open spec fn hex_key_spec(hex_key: Seq<char>) -> Option<Seq<u8>> {
    match hex_decoded(hex_key) {
        Some(b) => if b.len() == 32 && ed25519_point_valid(b) {
            Some(b)
        } else {
            None
        },
        None => None,
    }
}

/// Read a public key from hexadecimal text.
pub fn parse_hex_key(hex_key: &str) -> (r: Option<[u8; 32]>)
    ensures
        match r {
            Some(k) => hex_key_spec(hex_key@) == Some(k@),
            None => hex_key_spec(hex_key@) is None,
        },
{
    let bytes = match hex_decode(hex_key) {
        Some(b) => b,
        None => return None,
    };
    if bytes.len() != 32 {
        return None;
    }
    let mut array: [u8; 32] = [0u8; 32];
    let mut i: usize = 0;
    while i < 32
        invariant
            i <= 32,
            bytes@.len() == 32,
            forall|k: int| 0 <= k < i ==> array@[k] == bytes@[k],
        decreases 32 - i,
    {
        array.set(i, bytes[i]);
        i += 1;
    }
    proof {
        assert(array@ =~= bytes@);
    }
    if verifying_key_valid(&array) {
        Some(array)
    } else {
        None
    }
}

/// Strict lexicographic order of texts by character, which is the byte order of their UTF-8.
pub open spec fn text_less(a: Seq<char>, b: Seq<char>) -> bool
    decreases a.len(),
{
    if a.len() == 0 {
        b.len() > 0
    } else if b.len() == 0 {
        false
    } else if a[0] != b[0] {
        (a[0] as u32) < (b[0] as u32)
    } else {
        text_less(a.drop_first(), b.drop_first())
    }
}

proof fn lemma_text_less_total(a: Seq<char>, b: Seq<char>)
    ensures
        a != b ==> (text_less(a, b) || text_less(b, a)),
        !(text_less(a, b) && text_less(b, a)),
        !text_less(a, a),
    decreases a.len(),
{
    if a.len() > 0 && b.len() > 0 {
        lemma_text_less_total(a.drop_first(), b.drop_first());
        if a[0] == b[0] && a != b {
            assert(a.drop_first() != b.drop_first()) by {
                if a.drop_first() == b.drop_first() {
                    assert(a =~= seq![a[0]] + a.drop_first());
                    assert(b =~= seq![b[0]] + b.drop_first());
                }
            }
        }
        if a[0] != b[0] {
            vstd::utf8::char_u32_cast(a[0], a[0] as u32);
            vstd::utf8::char_u32_cast(b[0], b[0] as u32);
        }
    } else if a.len() == 0 && b.len() == 0 {
        assert(a =~= b);
    }
    if a.len() > 0 {
        lemma_text_less_total(a.drop_first(), a.drop_first());
    }
}

proof fn lemma_text_less_trans(a: Seq<char>, b: Seq<char>, c: Seq<char>)
    requires
        text_less(a, b),
        text_less(b, c),
    ensures
        text_less(a, c),
    decreases a.len(),
{
    if a.len() > 0 && b.len() > 0 && c.len() > 0 {
        if a[0] == b[0] && b[0] == c[0] {
            lemma_text_less_trans(a.drop_first(), b.drop_first(), c.drop_first());
        }
    }
}

/// Whether `a` sorts strictly before `b`, character by character.
fn text_less_exec(a: &str, b: &str) -> (r: bool)
    ensures
        r == text_less(a@, b@),
{
    let x = crate::text::chars_of(a);
    let y = crate::text::chars_of(b);
    let mut i: usize = 0;
    proof {
        assert(a@.skip(0) =~= a@);
        assert(b@.skip(0) =~= b@);
    }
    while i < x.len() && i < y.len()
        invariant
            i <= x@.len(),
            i <= y@.len(),
            x@ == a@,
            y@ == b@,
            text_less(a@, b@) == text_less(a@.skip(i as int), b@.skip(i as int)),
        decreases x@.len() - i,
    {
        let (p, q) = (x[i], y[i]);
        proof {
            assert(a@.skip(i as int)[0] == p);
            assert(b@.skip(i as int)[0] == q);
            assert(a@.skip(i as int).drop_first() =~= a@.skip(i + 1));
            assert(b@.skip(i as int).drop_first() =~= b@.skip(i + 1));
        }
        if p != q {
            return (p as u32) < (q as u32);
        }
        i += 1;
    }
    proof {
        assert(a@.skip(i as int).len() == a@.len() - i);
        assert(b@.skip(i as int).len() == b@.len() - i);
    }
    i == x.len() && i < y.len()
}

/// A set of public keys by id: ids unique and ascending.
#[derive(Debug, Clone)]
pub struct KeySet {
    entries: Vec<(String, [u8; 32])>,
}

/// The entries' ids.
pub open spec fn entry_ids(entries: Seq<(String, [u8; 32])>) -> Seq<Seq<char>> {
    Seq::new(entries.len(), |i: int| entries[i].0@)
}

/// Ids strictly ascending, hence unique.
pub open spec fn ids_ascending(ids: Seq<Seq<char>>) -> bool {
    forall|i: int, j: int| 0 <= i < j < ids.len() ==> text_less(#[trigger] ids[i], #[trigger] ids[j])
}

/// The keys as a map from id to key bytes.
pub open spec fn entries_map(entries: Seq<(String, [u8; 32])>) -> Map<Seq<char>, Seq<u8>> {
    Map::new(
        |id: Seq<char>| exists|i: int| 0 <= i < entries.len() && entries[i].0@ == id,
        |id: Seq<char>| entries[entry_index(entries, id)].1@,
    )
}

/// Where `id` sits among the entries, if it is there.
pub open spec fn entry_index(entries: Seq<(String, [u8; 32])>, id: Seq<char>) -> int {
    choose|i: int| 0 <= i < entries.len() && entries[i].0@ == id
}

impl View for KeySet {
    type V = Map<Seq<char>, Seq<u8>>;

    closed spec fn view(&self) -> Map<Seq<char>, Seq<u8>> {
        entries_map(self.entries@)
    }
}

impl KeySet {
    /// The set's invariant: ids ascending.
    pub closed spec fn wf(&self) -> bool {
        ids_ascending(entry_ids(self.entries@))
    }

    /// No keys.
    pub fn empty() -> (s: KeySet)
        ensures
            s.wf(),
            s@ == Map::<Seq<char>, Seq<u8>>::empty(),
    {
        let s = KeySet { entries: Vec::new() };
        proof {
            assert(s@ =~= Map::<Seq<char>, Seq<u8>>::empty());
        }
        s
    }

    /// Add or replace the key under `id`.
    pub fn insert(&mut self, id: &str, key: &[u8; 32])
        requires
            old(self).wf(),
        ensures
            final(self).wf(),
            final(self)@ == old(self)@.insert(id@, key@),
    {
        let ghost old_entries = self.entries@;
        let mut p: usize = 0;
        while p < self.entries.len() && text_less_exec(self.entries[p].0.as_str(), id)
            invariant
                p <= self.entries@.len(),
                self.entries@ == old_entries,
                forall|k: int| 0 <= k < p ==> text_less(#[trigger] old_entries[k].0@, id@),
            decreases self.entries@.len() - p,
        {
            p += 1;
        }
        if p < self.entries.len() && same_text(self.entries[p].0.as_str(), id) {
            self.entries.set(p, (id.to_owned(), *key));
            proof {
                lemma_map_after_set(old_entries, p as int, id@, key@, self.entries@);
            }
        } else {
            proof {
                if p < old_entries.len() {
                    lemma_text_less_total(old_entries[p as int].0@, id@);
                }
            }
            self.entries.insert(p, (id.to_owned(), *key));
            proof {
                lemma_map_after_insert(old_entries, p as int, id@, key@, self.entries@);
            }
        }
    }

    /// The key under `id`, if any.
    pub fn get(&self, id: &str) -> (r: Option<[u8; 32]>)
        requires
            self.wf(),
        ensures
            match r {
                Some(k) => self@.dom().contains(id@) && self@[id@] == k@,
                None => !self@.dom().contains(id@),
            },
    {
        let mut i: usize = 0;
        while i < self.entries.len()
            invariant
                i <= self.entries@.len(),
                self.wf(),
                forall|k: int| 0 <= k < i ==> #[trigger] self.entries@[k].0@ != id@,
            decreases self.entries@.len() - i,
        {
            if same_text(self.entries[i].0.as_str(), id) {
                proof {
                    lemma_unique_ids(self.entries@, i as int);
                }
                return Some(self.entries[i].1);
            }
            i += 1;
        }
        None
    }

    /// Whether a key is held under `id`.
    pub fn contains(&self, id: &str) -> (r: bool)
        requires
            self.wf(),
        ensures
            r == self@.dom().contains(id@),
    {
        self.get(id).is_some()
    }

    /// The ids held, ascending.
    pub fn ids(&self) -> (r: Vec<String>)
        requires
            self.wf(),
        ensures
            ids_ascending(Seq::new(r@.len(), |i: int| r@[i]@)),
            forall|x: Seq<char>| self@.dom().contains(x) <==> exists|i: int| 0 <= i < r@.len() && #[trigger] r@[i]@ == x,
    {
        let mut r: Vec<String> = Vec::new();
        let mut i: usize = 0;
        while i < self.entries.len()
            invariant
                i <= self.entries@.len(),
                r@.len() == i,
                forall|k: int| 0 <= k < i ==> #[trigger] r@[k]@ == self.entries@[k].0@,
            decreases self.entries@.len() - i,
        {
            r.push(self.entries[i].0.clone());
            i += 1;
        }
        proof {
            assert(Seq::new(r@.len(), |i: int| r@[i]@) =~= entry_ids(self.entries@));
            assert forall|x: Seq<char>| self@.dom().contains(x) <==> exists|i: int| 0 <= i < r@.len() && #[trigger] r@[i]@ == x by {
                if self@.dom().contains(x) {
                    let i = choose|i: int| 0 <= i < self.entries@.len() && self.entries@[i].0@ == x;
                    assert(r@[i]@ == x);
                }
                if exists|i: int| 0 <= i < r@.len() && #[trigger] r@[i]@ == x {
                    let i = choose|i: int| 0 <= i < r@.len() && #[trigger] r@[i]@ == x;
                    assert(self.entries@[i].0@ == x);
                }
            }
        }
        r
    }
}

proof fn lemma_unique_ids(entries: Seq<(String, [u8; 32])>, i: int)
    requires
        ids_ascending(entry_ids(entries)),
        0 <= i < entries.len(),
    ensures
        entries_map(entries).dom().contains(entries[i].0@),
        entries_map(entries)[entries[i].0@] == entries[i].1@,
{
    let id = entries[i].0@;
    let ids = entry_ids(entries);
    assert(ids[i] == id);
    assert(entries_map(entries).dom().contains(id));
    let j = entry_index(entries, id);
    assert(entries_map(entries)[id] == entries[j].1@);
    if j != i {
        assert(ids[j] == id);
        lemma_text_less_total(id, id);
        if i < j {
            assert(text_less(ids[i], ids[j]));
        } else {
            assert(text_less(ids[j], ids[i]));
        }
    }
}

proof fn lemma_map_after_set(
    old_entries: Seq<(String, [u8; 32])>,
    p: int,
    id: Seq<char>,
    key: Seq<u8>,
    new_entries: Seq<(String, [u8; 32])>,
)
    requires
        ids_ascending(entry_ids(old_entries)),
        0 <= p < old_entries.len(),
        old_entries[p].0@ == id,
        new_entries.len() == old_entries.len(),
        new_entries[p].0@ == id,
        new_entries[p].1@ == key,
        forall|k: int| 0 <= k < old_entries.len() && k != p ==> new_entries[k] == old_entries[k],
    ensures
        ids_ascending(entry_ids(new_entries)),
        entries_map(new_entries) == entries_map(old_entries).insert(id, key),
{
    assert(entry_ids(new_entries) =~= entry_ids(old_entries)) by {
        assert forall|k: int| 0 <= k < new_entries.len() implies entry_ids(new_entries)[k] == entry_ids(old_entries)[k] by {
            if k != p {
                assert(new_entries[k] == old_entries[k]);
            }
        }
    }
    let m = entries_map(new_entries);
    let o = entries_map(old_entries).insert(id, key);
    assert forall|x: Seq<char>| #[trigger] m.dom().contains(x) == o.dom().contains(x) by {
        if m.dom().contains(x) {
            let i = choose|i: int| 0 <= i < new_entries.len() && new_entries[i].0@ == x;
            if i != p {
                assert(old_entries[i].0@ == x);
            }
        }
        if o.dom().contains(x) && x != id {
            let i = choose|i: int| 0 <= i < old_entries.len() && old_entries[i].0@ == x;
            assert(i != p);
            assert(new_entries[i].0@ == x);
        }
    }
    assert forall|x: Seq<char>| #[trigger] m.dom().contains(x) implies m[x] == o[x] by {
        let i = choose|i: int| 0 <= i < new_entries.len() && new_entries[i].0@ == x;
        lemma_unique_ids(new_entries, i);
        if x == id {
            lemma_unique_ids(new_entries, p);
        } else {
            assert(i != p);
            lemma_unique_ids(old_entries, i);
        }
    }
    assert(m =~= o);
}

proof fn lemma_map_after_insert(
    old_entries: Seq<(String, [u8; 32])>,
    p: int,
    id: Seq<char>,
    key: Seq<u8>,
    new_entries: Seq<(String, [u8; 32])>,
)
    requires
        ids_ascending(entry_ids(old_entries)),
        0 <= p <= old_entries.len(),
        forall|k: int| 0 <= k < p ==> text_less(#[trigger] old_entries[k].0@, id),
        p < old_entries.len() ==> text_less(id, old_entries[p].0@),
        new_entries.len() == old_entries.len() + 1,
        new_entries[p].0@ == id,
        new_entries[p].1@ == key,
        forall|k: int| 0 <= k < p ==> new_entries[k] == old_entries[k],
        forall|k: int| p < k < new_entries.len() ==> new_entries[k] == old_entries[k - 1],
    ensures
        ids_ascending(entry_ids(new_entries)),
        entries_map(new_entries) == entries_map(old_entries).insert(id, key),
{
    let ni = entry_ids(new_entries);
    let oi = entry_ids(old_entries);
    assert forall|i: int, j: int| 0 <= i < j < ni.len() implies text_less(#[trigger] ni[i], #[trigger] ni[j]) by {
        if j < p {
            assert(ni[i] == oi[i] && ni[j] == oi[j]);
        } else if j == p {
            assert(ni[i] == old_entries[i].0@);
        } else if i == p {
            assert(ni[j] == old_entries[j - 1].0@);
            if j - 1 > p {
                assert(text_less(oi[p], oi[j - 1]));
                assert(oi[p] == old_entries[p].0@ && oi[j - 1] == old_entries[j - 1].0@);
                lemma_text_less_trans(id, old_entries[p].0@, old_entries[j - 1].0@);
            }
        } else if i < p {
            assert(ni[i] == oi[i] && ni[j] == oi[j - 1]);
            assert(text_less(oi[i], id));
            if j - 1 >= p {
                assert(oi[p] == old_entries[p].0@ && oi[j - 1] == old_entries[j - 1].0@);
                if j - 1 > p {
                    assert(text_less(oi[p], oi[j - 1]));
                    lemma_text_less_trans(id, old_entries[p].0@, old_entries[j - 1].0@);
                }
                lemma_text_less_trans(oi[i], id, oi[j - 1]);
            }
        } else {
            assert(ni[i] == oi[i - 1] && ni[j] == oi[j - 1]);
        }
    }
    let m = entries_map(new_entries);
    let o = entries_map(old_entries).insert(id, key);
    assert forall|x: Seq<char>| #[trigger] m.dom().contains(x) == o.dom().contains(x) by {
        if m.dom().contains(x) {
            let i = choose|i: int| 0 <= i < new_entries.len() && new_entries[i].0@ == x;
            if i < p {
                assert(old_entries[i].0@ == x);
            } else if i > p {
                assert(old_entries[i - 1].0@ == x);
            }
        }
        if o.dom().contains(x) && x != id {
            let i = choose|i: int| 0 <= i < old_entries.len() && old_entries[i].0@ == x;
            if i < p {
                assert(new_entries[i].0@ == x);
            } else {
                assert(new_entries[i + 1].0@ == x);
            }
        }
        if x == id {
            assert(new_entries[p].0@ == x);
        }
    }
    assert forall|x: Seq<char>| #[trigger] m.dom().contains(x) implies m[x] == o[x] by {
        let i = choose|i: int| 0 <= i < new_entries.len() && new_entries[i].0@ == x;
        lemma_unique_ids(new_entries, i);
        if x == id {
            lemma_unique_ids(new_entries, p);
        } else if i < p {
            lemma_unique_ids(old_entries, i);
        } else {
            assert(i != p);
            lemma_unique_ids(old_entries, i - 1);
        }
    }
    assert(m =~= o);
}

} // verus!
