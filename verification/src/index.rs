//! A hash index from 64-bit fingerprints to positions in a list, so that
//! lists with distinct keys can be kept without quadratic searches. Key
//! equality is always decided on the keys themselves; the fingerprint only
//! picks which positions to look at.

use vstd::prelude::*;
use std::collections::HashMap;

verus! {

broadcast use vstd::std_specs::hash::group_hash_axioms;

/// FNV-1a offset basis.
pub const FNV_OFFSET: u64 = 0xcbf29ce484222325;

/// FNV-1a prime.
pub const FNV_PRIME: u64 = 0x100000001b3;

/// FNV-1a fingerprint of a sequence of values (each folded in as a `u64`).
pub open spec fn fnv1a(s: Seq<u64>) -> u64
    decreases s.len(),
{
    if s.len() == 0 {
        FNV_OFFSET
    } else {
        (fnv1a(s.drop_last()) ^ s.last()).wrapping_mul(FNV_PRIME)
    }
}

/// Fingerprint of a byte string.
pub open spec fn bytes_fp(s: Seq<u8>) -> u64 {
    fnv1a(s.map_values(|b: u8| b as u64))
}

/// Fingerprint of a character string.
pub open spec fn chars_fp(s: Seq<char>) -> u64 {
    fnv1a(s.map_values(|c: char| c as u64))
}

pub fn fingerprint_bytes(s: &[u8]) -> (h: u64)
    ensures
        h == bytes_fp(s@),
{
    let ghost m = s@.map_values(|b: u8| b as u64);
    let mut h: u64 = FNV_OFFSET;
    let mut i: usize = 0;
    assert(m.take(0) =~= Seq::<u64>::empty());
    while i < s.len()
        invariant
            i <= s@.len(),
            m == s@.map_values(|b: u8| b as u64),
            h == fnv1a(m.take(i as int)),
        decreases s@.len() - i,
    {
        assert(m.take(i + 1).drop_last() =~= m.take(i as int));
        h = (h ^ (s[i] as u64)).wrapping_mul(FNV_PRIME);
        i += 1;
    }
    assert(m.take(s@.len() as int) =~= m);
    h
}

pub fn fingerprint_chars(s: &[char]) -> (h: u64)
    ensures
        h == chars_fp(s@),
{
    let ghost m = s@.map_values(|c: char| c as u64);
    let mut h: u64 = FNV_OFFSET;
    let mut i: usize = 0;
    assert(m.take(0) =~= Seq::<u64>::empty());
    while i < s.len()
        invariant
            i <= s@.len(),
            m == s@.map_values(|c: char| c as u64),
            h == fnv1a(m.take(i as int)),
        decreases s@.len() - i,
    {
        assert(m.take(i + 1).drop_last() =~= m.take(i as int));
        h = (h ^ (s[i] as u64)).wrapping_mul(FNV_PRIME);
        i += 1;
    }
    assert(m.take(s@.len() as int) =~= m);
    h
}

/// Positions grouped by fingerprint.
pub struct PosIndex {
    map: HashMap<u64, Vec<usize>>,
}

impl PosIndex {
    /// The positions filed under fingerprint `h`.
    pub closed spec fn bucket(&self, h: u64) -> Seq<usize> {
        if self.map@.contains_key(h) {
            self.map@[h]@
        } else {
            Seq::empty()
        }
    }

    pub fn new() -> (r: PosIndex)
        ensures
            forall|h: u64| #[trigger] r.bucket(h) == Seq::<usize>::empty(),
    {
        PosIndex { map: HashMap::new() }
    }

    /// A copy of the positions filed under `h`.
    pub fn positions(&self, h: u64) -> (r: Vec<usize>)
        ensures
            r@ == self.bucket(h),
    {
        match self.map.get(&h) {
            Some(v) => v.clone(),
            None => Vec::new(),
        }
    }

    /// Files position `j` under `h`.
    pub fn add(&mut self, h: u64, j: usize)
        ensures
            final(self).bucket(h) == old(self).bucket(h).push(j),
            forall|g: u64| g != h ==> #[trigger] final(self).bucket(g) == old(self).bucket(g),
    {
        let mut b = match self.map.remove(&h) {
            Some(v) => v,
            None => Vec::new(),
        };
        b.push(j);
        self.map.insert(h, b);
    }
}


/// Character-string keys.
pub open spec fn keys_view(keys: Seq<Vec<char>>) -> Seq<Seq<char>> {
    keys.map_values(|k: Vec<char>| k@)
}

/// Whether `k` is one of `keys`.
pub open spec fn has_key(keys: Seq<Seq<char>>, k: Seq<char>) -> bool {
    exists|j: int| 0 <= j < keys.len() && keys[j] == k
}

/// A list of distinct character-string keys, in insertion order, with a
/// fingerprint index for lookups.
pub struct KeyList {
    keys: Vec<Vec<char>>,
    index: PosIndex,
}

impl View for KeyList {
    type V = Seq<Seq<char>>;

    closed spec fn view(&self) -> Seq<Seq<char>> {
        keys_view(self.keys@)
    }
}

impl KeyList {
    /// Distinct keys, each filed under its fingerprint; every filed position
    /// is in range.
    pub closed spec fn wf(&self) -> bool {
        let r = keys_view(self.keys@);
        &&& forall|i: int, j: int| 0 <= i < j < r.len() ==> r[i] != r[j]
        &&& forall|j: int| 0 <= j < r.len() ==> #[trigger] self.index.bucket(chars_fp(r[j])).contains(j as usize)
        &&& forall|h: u64, k: int| 0 <= k < self.index.bucket(h).len() ==> #[trigger] self.index.bucket(h)[k] < r.len()
    }

    pub proof fn lemma_distinct(&self)
        requires
            self.wf(),
        ensures
            forall|i: int, j: int| 0 <= i < j < self@.len() ==> self@[i] != self@[j],
    {
    }

    pub fn new() -> (r: KeyList)
        ensures
            r.wf(),
            r@ == Seq::<Seq<char>>::empty(),
    {
        let r = KeyList { keys: Vec::new(), index: PosIndex::new() };
        assert(keys_view(r.keys@) =~= Seq::<Seq<char>>::empty());
        r
    }

    pub fn len(&self) -> (n: usize)
        ensures
            n == self@.len(),
    {
        self.keys.len()
    }

    /// The key at position `j`.
    pub fn key(&self, j: usize) -> (k: &Vec<char>)
        requires
            j < self@.len(),
        ensures
            k@ == self@[j as int],
    {
        &self.keys[j]
    }

    /// The position of `k`, if it is one of the keys.
    pub fn find(&self, k: &[char]) -> (r: Option<usize>)
        requires
            self.wf(),
        ensures
            match r {
                Some(j) => j < self@.len() && self@[j as int] == k@,
                None => !has_key(self@, k@),
            },
    {
        let h = fingerprint_chars(k);
        let cands = self.index.positions(h);
        let ghost r0 = keys_view(self.keys@);
        let mut c: usize = 0;
        while c < cands.len()
            invariant
                self.wf(),
                r0 == keys_view(self.keys@),
                cands@ == self.index.bucket(h),
                h == chars_fp(k@),
                c <= cands@.len(),
                forall|d: int| 0 <= d < c ==> r0[cands@[d] as int] != k@,
            decreases cands@.len() - c,
        {
            let j = cands[c];
            assert(self.index.bucket(h)[c as int] < r0.len());
            if crate::text::chars_eq(self.keys[j].as_slice(), k) {
                return Some(j);
            }
            c += 1;
        }
        let n = self.keys.len();
        proof {
            assert forall|i: int| 0 <= i < r0.len() implies r0[i] != k@ by {
                if r0[i] == k@ {
                    assert(i < n);
                    assert(self.index.bucket(h).contains(i as usize));
                    let d = choose|d: int| 0 <= d < cands@.len() && cands@[d] == i as usize;
                    assert(r0[cands@[d] as int] != k@);
                }
            }
        }
        None
    }

    /// Appends a key that is not yet present.
    pub fn push(&mut self, k: Vec<char>)
        requires
            old(self).wf(),
            !has_key(old(self)@, k@),
        ensures
            final(self).wf(),
            final(self)@ == old(self)@.push(k@),
    {
        let h = fingerprint_chars(k.as_slice());
        let n = self.keys.len();
        let ghost r0 = keys_view(self.keys@);
        let ghost kv = k@;
        let ghost old_index = self.index;
        self.index.add(h, n);
        self.keys.push(k);
        proof {
            let r1 = keys_view(self.keys@);
            assert(r1 =~= r0.push(kv));
            assert forall|i: int, j: int| 0 <= i < j < r1.len() implies r1[i] != r1[j] by {
                if j == r0.len() {
                    assert(r1[i] == r0[i]);
                }
            }
            assert forall|j: int| 0 <= j < r1.len() implies #[trigger] self.index.bucket(chars_fp(r1[j])).contains(j as usize) by {
                if j < r0.len() {
                    let g = chars_fp(r1[j]);
                    assert(r1[j] == r0[j]);
                    assert(old_index.bucket(g).contains(j as usize));
                    if g == h {
                        let d = choose|d: int| 0 <= d < old_index.bucket(g).len() && old_index.bucket(g)[d] == j as usize;
                        assert(self.index.bucket(g)[d] == j as usize);
                    }
                } else {
                    assert(self.index.bucket(h)[old_index.bucket(h).len() as int] == n);
                }
            }
            assert forall|g: u64, k2: int| 0 <= k2 < self.index.bucket(g).len() implies #[trigger] self.index.bucket(g)[k2] < r1.len() by {
                if g != h {
                    assert(self.index.bucket(g) == old_index.bucket(g));
                } else if k2 < old_index.bucket(h).len() {
                    assert(self.index.bucket(g)[k2] == old_index.bucket(g)[k2]);
                }
            }
        }
    }
}

} // verus!
