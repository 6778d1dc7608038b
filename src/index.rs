//! The in-memory index: for each key, the offset of its latest record.

use vstd::prelude::*;

verus! {

/// Whether `a` and `b` hold the same bytes.
pub fn bytes_eq(a: &[u8], b: &[u8]) -> (r: bool)
    ensures
        r == (a@ == b@),
{
    if a.len() != b.len() {
        return false;
    }
    let mut i: usize = 0;
    while i < a.len()
        invariant
            a@.len() == b@.len(),
            i <= a@.len(),
            forall|j: int| 0 <= j < i ==> a@[j] == b@[j],
        decreases a@.len() - i,
    {
        if a[i] != b[i] {
            return false;
        }
        i = i + 1;
    }
    assert(a@ =~= b@);
    true
}

/// Whether the pairs of `s` list exactly the entries of `m`, each key once.
pub open spec fn lists_map(s: Seq<(Seq<u8>, u64)>, m: Map<Seq<u8>, u64>) -> bool {
    &&& forall|i: int, j: int| 0 <= i < j < s.len() ==> #[trigger] s[i].0 != #[trigger] s[j].0
    &&& forall|i: int| 0 <= i < s.len() ==> m.contains_key(#[trigger] s[i].0) && m[s[i].0] == s[i].1
    &&& forall|k: Seq<u8>| #[trigger] m.contains_key(k) ==> exists|i: int| 0 <= i < s.len() && #[trigger] s[i].0 == k
}

/// The pairs of `s`, with each key seen as its bytes.
pub open spec fn pairs_view(s: Seq<(Vec<u8>, u64)>) -> Seq<(Seq<u8>, u64)> {
    s.map_values(|e: (Vec<u8>, u64)| (e.0@, e.1))
}

/// `n` written as `k` bytes, least significant first.
pub open spec fn le_bytes(n: nat, k: nat) -> Seq<u8>
    decreases k,
{
    if k == 0 {
        Seq::empty()
    } else {
        seq![(n % 256) as u8] + le_bytes(n / 256, (k - 1) as nat)
    }
}

/// Each pair in turn: the key length as eight bytes, the key, the offset as
/// eight bytes.
pub open spec fn pairs_body(s: Seq<(Seq<u8>, u64)>) -> Seq<u8>
    decreases s.len(),
{
    if s.len() == 0 {
        Seq::empty()
    } else {
        let p = s.last();
        pairs_body(s.drop_last()) + le_bytes(p.0.len(), 8) + p.0 + le_bytes(p.1 as nat, 8)
    }
}

/// The bincode encoding (fixed-width little-endian integers) of a sequence of
/// (key, offset) pairs: the count as eight bytes, then the pairs.
pub open spec fn bincode_pairs(s: Seq<(Seq<u8>, u64)>) -> Seq<u8> {
    le_bytes(s.len(), 8) + pairs_body(s)
}

/// Relies on bincode's `serialize`, whose default configuration has no size
/// limit and writes integers as fixed-width little-endian: it fails only on a
/// sequence of unknown length, which a `Vec` never is, and encodes the pairs
/// as `bincode_pairs` describes.
#[verifier::external_body]
pub(crate) fn serialize_pairs(pairs: &Vec<(Vec<u8>, u64)>) -> (r: Option<Vec<u8>>)
    ensures
        r is Some,
        r matches Some(b) ==> b@ == bincode_pairs(pairs_view(pairs@)),
{
    bincode::serialize(pairs).ok()
}

/// A map from keys to log offsets. Each key appears at most once.
///
/// The keys are byte vectors, for which vstd's `HashMap` specification has no
/// key model (it covers integer and `bool` keys), so a hash map's contents could
/// not be reasoned about; the entries are kept in two vectors searched in
/// order instead, with unique keys as the invariant.
pub struct Index {
    keys: Vec<Vec<u8>>,
    offsets: Vec<u64>,
    map: Ghost<Map<Seq<u8>, u64>>,
}

impl View for Index {
    type V = Map<Seq<u8>, u64>;

    closed spec fn view(&self) -> Map<Seq<u8>, u64> {
        self.map@
    }
}

impl Index {
    /// The keys and offsets are paired position by position, each key is
    /// stored once, and together they are exactly the map.
    pub closed spec fn wf(&self) -> bool {
        &&& self.keys@.len() == self.offsets@.len()
        &&& forall|i: int, j: int|
            0 <= i < j < self.keys@.len() ==> #[trigger] self.keys@[i]@ != #[trigger] self.keys@[j]@
        &&& forall|i: int|
            0 <= i < self.keys@.len() ==> {
                &&& self.map@.contains_key(#[trigger] self.keys@[i]@)
                &&& self.map@[self.keys@[i]@] == self.offsets@[i]
            }
        &&& forall|k: Seq<u8>|
            #[trigger] self.map@.contains_key(k) ==> exists|i: int|
                0 <= i < self.keys@.len() && #[trigger] self.keys@[i]@ == k
    }

    /// An empty index.
    pub fn new() -> (r: Index)
        ensures
            r.wf(),
            r@ == Map::<Seq<u8>, u64>::empty(),
    {
        Index { keys: Vec::new(), offsets: Vec::new(), map: Ghost(Map::empty()) }
    }

    /// Where `key` is stored, if it is.
    fn find(&self, key: &[u8]) -> (r: Option<usize>)
        requires
            self.wf(),
        ensures
            match r {
                Some(i) => i < self.keys@.len() && self.keys@[i as int]@ == key@,
                None => !self@.contains_key(key@),
            },
    {
        let mut i: usize = 0;
        while i < self.keys.len()
            invariant
                self.wf(),
                i <= self.keys@.len(),
                forall|j: int| 0 <= j < i ==> self.keys@[j]@ != key@,
            decreases self.keys@.len() - i,
        {
            if bytes_eq(self.keys[i].as_slice(), key) {
                return Some(i);
            }
            i = i + 1;
        }
        None
    }

    /// The offset stored for `key`.
    pub fn get(&self, key: &[u8]) -> (r: Option<u64>)
        requires
            self.wf(),
        ensures
            r == self@.get(key@),
    {
        match self.find(key) {
            Some(i) => Some(self.offsets[i]),
            None => None,
        }
    }

    /// Maps `key` to `offset`, replacing any earlier offset.
    pub fn set(&mut self, key: &[u8], offset: u64)
        requires
            old(self).wf(),
        ensures
            final(self).wf(),
            final(self)@ == old(self)@.insert(key@, offset),
    {
        let ghost old_map = self.map@;
        match self.find(key) {
            Some(i) => {
                self.offsets.set(i, offset);
                self.map = Ghost(old_map.insert(key@, offset));
                assert forall|k: Seq<u8>| #[trigger] self.map@.contains_key(k) implies exists|j: int|
                    0 <= j < self.keys@.len() && #[trigger] self.keys@[j]@ == k by {
                    if k != key@ {
                        assert(old_map.contains_key(k));
                    } else {
                        assert(self.keys@[i as int]@ == k);
                    }
                }
            },
            None => {
                self.keys.push(vstd::slice::slice_to_vec(key));
                self.offsets.push(offset);
                self.map = Ghost(old_map.insert(key@, offset));
                let ghost n: int = self.keys@.len() - 1;
                assert(self.keys@[n]@ == key@);
                assert forall|k: Seq<u8>| #[trigger] self.map@.contains_key(k) implies exists|j: int|
                    0 <= j < self.keys@.len() && #[trigger] self.keys@[j]@ == k by {
                    if k != key@ {
                        assert(old_map.contains_key(k));
                        let j = choose|j: int| 0 <= j < n && #[trigger] old(self).keys@[j]@ == k;
                        assert(self.keys@[j]@ == k);
                    } else {
                        assert(self.keys@[n]@ == k);
                    }
                }
            },
        }
    }

    /// The entries of the index, except the one for `key`, as (key, offset) pairs.
    pub fn entries_without(&self, key: &[u8]) -> (r: Vec<(Vec<u8>, u64)>)
        requires
            self.wf(),
        ensures
            lists_map(pairs_view(r@), self@.remove(key@)),
    {
        let mut out: Vec<(Vec<u8>, u64)> = Vec::new();
        let mut i: usize = 0;
        while i < self.keys.len()
            invariant
                self.wf(),
                i <= self.keys@.len(),
                forall|a: int, b: int|
                    0 <= a < b < out@.len() ==> #[trigger] out@[a].0@ != #[trigger] out@[b].0@,
                forall|a: int|
                    0 <= a < out@.len() ==> {
                        &&& #[trigger] out@[a].0@ != key@
                        &&& exists|j: int| 0 <= j < i && self.keys@[j]@ == out@[a].0@ && self.offsets@[j] == out@[a].1
                    },
                forall|j: int|
                    0 <= j < i && #[trigger] self.keys@[j]@ != key@ ==> exists|a: int|
                        0 <= a < out@.len() && #[trigger] out@[a].0@ == self.keys@[j]@,
            decreases self.keys@.len() - i,
        {
            if !bytes_eq(self.keys[i].as_slice(), key) {
                let ghost before = out@;
                let k = vstd::slice::slice_to_vec(self.keys[i].as_slice());
                out.push((k, self.offsets[i]));
                assert(out@[before.len() as int].0@ == self.keys@[i as int]@);
                assert forall|a: int, b: int|
                    0 <= a < b < out@.len() implies #[trigger] out@[a].0@ != #[trigger] out@[b].0@ by {
                    if b == before.len() {
                        let j = choose|j: int| 0 <= j < i && self.keys@[j]@ == out@[a].0@ && self.offsets@[j] == out@[a].1;
                        assert(self.keys@[j]@ != self.keys@[i as int]@);
                    } else {
                        assert(before[a].0@ != before[b].0@);
                    }
                }
                assert forall|a: int| 0 <= a < out@.len() implies {
                    &&& #[trigger] out@[a].0@ != key@
                    &&& exists|j: int| 0 <= j < i + 1 && self.keys@[j]@ == out@[a].0@ && self.offsets@[j] == out@[a].1
                } by {
                    if a == before.len() {
                        assert(self.keys@[i as int]@ == out@[a].0@);
                    } else {
                        assert(before[a] == out@[a]);
                    }
                }
                assert forall|j: int|
                    0 <= j < i + 1 && #[trigger] self.keys@[j]@ != key@ implies exists|a: int|
                        0 <= a < out@.len() && #[trigger] out@[a].0@ == self.keys@[j]@ by {
                    if j == i {
                        assert(out@[before.len() as int].0@ == self.keys@[j]@);
                    } else {
                        let a = choose|a: int| 0 <= a < before.len() && #[trigger] before[a].0@ == self.keys@[j]@;
                        assert(out@[a] == before[a]);
                    }
                }
            }
            i = i + 1;
        }
        let ghost pv = pairs_view(out@);
        let ghost m = self@.remove(key@);
        assert forall|a: int, b: int| 0 <= a < b < pv.len() implies #[trigger] pv[a].0 != #[trigger] pv[b].0 by {
            assert(out@[a].0@ != out@[b].0@);
        }
        assert forall|a: int| 0 <= a < pv.len() implies m.contains_key(#[trigger] pv[a].0) && m[pv[a].0] == pv[a].1 by {
            let j = choose|j: int| 0 <= j < i && self.keys@[j]@ == out@[a].0@ && self.offsets@[j] == out@[a].1;
            assert(self.map@.contains_key(self.keys@[j]@));
        }
        assert forall|k: Seq<u8>| #[trigger] m.contains_key(k) implies exists|a: int| 0 <= a < pv.len() && #[trigger] pv[a].0 == k by {
            let j = choose|j: int| 0 <= j < self.keys@.len() && #[trigger] self.keys@[j]@ == k;
            let a = choose|a: int| 0 <= a < out@.len() && #[trigger] out@[a].0@ == self.keys@[j]@;
            assert(pv[a].0 == k);
        }
        out
    }

    /// Drops `key` from the index, if it is there.
    pub fn remove(&mut self, key: &[u8])
        requires
            old(self).wf(),
        ensures
            final(self).wf(),
            final(self)@ == old(self)@.remove(key@),
    {
        let ghost old_map = self.map@;
        let ghost old_keys = self.keys@;
        match self.find(key) {
            Some(i) => {
                self.keys.remove(i);
                self.offsets.remove(i);
                self.map = Ghost(old_map.remove(key@));
                assert forall|k: Seq<u8>| #[trigger] self.map@.contains_key(k) implies exists|j: int|
                    0 <= j < self.keys@.len() && #[trigger] self.keys@[j]@ == k by {
                    let j = choose|j: int| 0 <= j < old_keys.len() && #[trigger] old_keys[j]@ == k;
                    assert(j != i);
                    if j < i {
                        assert(self.keys@[j]@ == k);
                    } else {
                        assert(self.keys@[j - 1]@ == k);
                    }
                }
                assert forall|a: int, b: int| 0 <= a < b < self.keys@.len() implies #[trigger] self.keys@[a]@
                    != #[trigger] self.keys@[b]@ by {
                    let a0 = if a < i { a } else { a + 1 };
                    let b0 = if b < i { b } else { b + 1 };
                    assert(old_keys[a0]@ != old_keys[b0]@);
                }
                assert forall|j: int| 0 <= j < self.keys@.len() implies self.map@.contains_key(
                    #[trigger] self.keys@[j]@,
                ) && self.map@[self.keys@[j]@] == self.offsets@[j] by {
                    let j0 = if j < i { j } else { j + 1 };
                    assert(old_keys[j0]@ != key@);
                }
            },
            None => {
                assert(old_map.remove(key@) =~= old_map);
            },
        }
    }
}

} // verus!
