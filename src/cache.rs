//! A store from boards (by their cells) to analyses.
use crate::space::Piece;
use std::collections::HashMap;
use vstd::prelude::*;

verus! {

broadcast use vstd::std_specs::hash::group_hash_axioms;

/// The modulus of fingerprints, the largest prime below `2^32`.
pub const PRIME: u64 = 4294967291;

/// The code of a piece in a fingerprint.
pub open spec fn code(p: Piece) -> int {
    match p {
        Piece::X => 0,
        Piece::O => 1,
        Piece::Empty => 2,
    }
}

/// The bucket a sequence of cells is filed under: its cells read as a
/// base-3 number, modulo a prime below `2^32`.
pub open spec fn fingerprint(s: Seq<Piece>) -> u64
    decreases s.len(),
{
    if s.len() == 0 {
        0
    } else {
        ((fingerprint(s.drop_last()) as int * 3 + code(s.last())) % (PRIME as int)) as u64
    }
}

/// One stored pair.
pub struct Entry<V> {
    pub key: Vec<Piece>,
    pub value: V,
}

/// The value stored last under `k` in a bucket.
pub open spec fn find<V>(s: Seq<Entry<V>>, k: Seq<Piece>) -> Option<V>
    decreases s.len(),
{
    if s.len() == 0 {
        None
    } else if s.last().key@ == k {
        Some(s.last().value)
    } else {
        find(s.drop_last(), k)
    }
}

proof fn lemma_find_update<V>(s: Seq<Entry<V>>, i: int, e: Entry<V>, k: Seq<Piece>)
    requires
        0 <= i < s.len(),
        s[i].key@ == e.key@,
        forall|j: int| i < j < s.len() ==> s[j].key@ != e.key@,
    ensures
        find(s.update(i, e), k) == if k == e.key@ {
            Some(e.value)
        } else {
            find(s, k)
        },
    decreases s.len(),
{
    if i < s.len() - 1 {
        assert(s.update(i, e).drop_last() =~= s.drop_last().update(i, e));
        lemma_find_update(s.drop_last(), i, e, k);
    } else {
        assert(s.update(i, e).drop_last() =~= s.drop_last());
    }
}

/// A store from cell sequences to values, filed in buckets by fingerprint.
pub struct Cache<V> {
    buckets: HashMap<u64, Vec<Entry<V>>>,
    keys: Vec<Vec<Piece>>,
}

impl<V> Cache<V> {
    /// The value stored under `k`, if any.
    pub closed spec fn lookup(&self, k: Seq<Piece>) -> Option<V> {
        let h = fingerprint(k);
        if self.buckets@.contains_key(h) {
            find(self.buckets@[h]@, k)
        } else {
            None
        }
    }

    /// Every stored key is listed once in `keys`, and only stored keys are.
    pub closed spec fn wf(&self) -> bool {
        &&& forall|k: Seq<Piece>|
            #[trigger] self.lookup(k) is Some ==> exists|i: int| 0 <= i < self.keys@.len() && self.keys@[i]@ == k
        &&& forall|i: int| 0 <= i < self.keys@.len() ==> self.lookup(#[trigger] self.keys@[i]@) is Some
        &&& forall|i: int, j: int| 0 <= i < j < self.keys@.len() ==> self.keys@[i]@ != self.keys@[j]@
    }

    pub fn new() -> (r: Cache<V>)
        ensures
            r.wf(),
            forall|k: Seq<Piece>| #[trigger] r.lookup(k) == None::<V>,
    {
        Cache { buckets: HashMap::new(), keys: Vec::new() }
    }

    /// The value stored under `k`, if any.
    pub fn get(&self, k: &Vec<Piece>) -> (r: Option<&V>)
        ensures
            match r {
                Some(v) => self.lookup(k@) == Some(*v),
                None => self.lookup(k@) == None::<V>,
            },
    {
        let h = fingerprint_of(k);
        match self.buckets.get(&h) {
            None => None,
            Some(bucket) => {
                match find_in(bucket, k) {
                    None => None,
                    Some(i) => Some(&bucket[i].value),
                }
            },
        }
    }

    /// Stores `v` under `k`, in place of what was stored there.
    pub fn insert(&mut self, k: Vec<Piece>, v: V)
        requires
            old(self).wf(),
        ensures
            final(self).wf(),
            final(self).lookup(k@) == Some(v),
            forall|j: Seq<Piece>| j != k@ ==> #[trigger] final(self).lookup(j) == old(self).lookup(j),
    {
        let h = fingerprint_of(&k);
        let ghost kv = k@;
        let ghost ev = v;
        let mut bucket = match self.buckets.remove(&h) {
            Some(b) => b,
            None => Vec::new(),
        };
        let ghost b0 = bucket@;
        assert(old(self).buckets@.contains_key(h) ==> b0 == old(self).buckets@[h]@);
        assert(!old(self).buckets@.contains_key(h) ==> b0.len() == 0);
        let ghost mut was_stored = true;
        match find_in(&bucket, &k) {
            Some(i) => {
                proof {
                    assert(old(self).lookup(kv) is Some);
                }
                let e = Entry { key: k, value: v };
                proof {
                    assert forall|j: Seq<Piece>| #[trigger] find(b0.update(i as int, e), j) == if j == kv {
                        Some(ev)
                    } else {
                        find(b0, j)
                    } by {
                        lemma_find_update(b0, i as int, e, j);
                    }
                }
                bucket.set(i, e);
            },
            None => {
                proof {
                    assert(old(self).lookup(kv) is None);
                    was_stored = false;
                }
                self.keys.push(copy_cells(&k));
                bucket.push(Entry { key: k, value: v });
                assert(bucket@.drop_last() =~= b0);
            },
        }
        self.buckets.insert(h, bucket);
        proof {
            assert forall|j: Seq<Piece>| j != kv implies #[trigger] self.lookup(j) == old(self).lookup(j) by {
                if fingerprint(j) == h {
                    assert(find(bucket@, j) == find(b0, j));
                }
            }
            assert(self.lookup(kv) == Some(ev));
            let ok = old(self).keys@;
            if was_stored {
                assert(self.keys@ == ok);
            } else {
                assert(self.keys@.len() == ok.len() + 1);
                assert(self.keys@[ok.len() as int]@ == kv);
                assert forall|i: int| 0 <= i < ok.len() implies self.keys@[i] == ok[i] by {}
                assert forall|i: int| 0 <= i < ok.len() implies ok[i]@ != kv by {
                    assert(old(self).lookup(ok[i]@) is Some);
                }
            }
            assert forall|j: Seq<Piece>| #[trigger] self.lookup(j) is Some implies exists|i: int|
                0 <= i < self.keys@.len() && self.keys@[i]@ == j by {
                if j == kv {
                    if was_stored {
                        assert(old(self).lookup(j) is Some);
                    } else {
                        assert(self.keys@[ok.len() as int]@ == j);
                    }
                } else {
                    assert(old(self).lookup(j) is Some);
                    let i = choose|i: int| 0 <= i < ok.len() && ok[i]@ == j;
                    assert(self.keys@[i]@ == j);
                }
            }
            assert forall|i: int| 0 <= i < self.keys@.len() implies self.lookup(#[trigger] self.keys@[i]@) is Some by {
                if self.keys@[i]@ != kv {
                    assert(i < ok.len());
                    assert(self.keys@[i] == ok[i]);
                    assert(old(self).lookup(ok[i]@) is Some);
                }
            }
        }
    }
}

impl<V> Cache<V> {
    /// Every key stored so far, each once, in the order they were first
    /// stored.
    pub fn stored_keys(&self) -> (r: &Vec<Vec<Piece>>)
        requires
            self.wf(),
        ensures
            forall|k: Seq<Piece>| #[trigger] self.lookup(k) is Some ==> exists|i: int| 0 <= i < r@.len() && r@[i]@ == k,
            forall|i: int| 0 <= i < r@.len() ==> self.lookup(#[trigger] r@[i]@) is Some,
            forall|i: int, j: int| 0 <= i < j < r@.len() ==> r@[i]@ != r@[j]@,
    {
        &self.keys
    }
}

fn copy_cells(k: &Vec<Piece>) -> (r: Vec<Piece>)
    ensures
        r@ == k@,
{
    crate::canon::copy_vec(k)
}

/// The fingerprint of a cell sequence.
fn fingerprint_of(k: &Vec<Piece>) -> (r: u64)
    ensures
        r == fingerprint(k@),
{
    let mut h: u64 = 0;
    let mut i: usize = 0;
    while i < k.len()
        invariant
            i <= k@.len(),
            h == fingerprint(k@.subrange(0, i as int)),
            h < PRIME,
        decreases k@.len() - i,
    {
        assert(k@.subrange(0, i + 1).drop_last() =~= k@.subrange(0, i as int));
        let c: u64 = match k[i] {
            Piece::X => 0,
            Piece::O => 1,
            Piece::Empty => 2,
        };
        h = (h * 3 + c) % PRIME;
        i = i + 1;
    }
    assert(k@.subrange(0, i as int) =~= k@);
    h
}

/// Whether two cell sequences are equal.
fn same_cells(a: &Vec<Piece>, b: &Vec<Piece>) -> (r: bool)
    ensures
        r == (a@ == b@),
{
    if a.len() != b.len() {
        return false;
    }
    let mut i: usize = 0;
    while i < a.len()
        invariant
            a@.len() == b@.len(),
            i <= a@.len(),
            a@.subrange(0, i as int) == b@.subrange(0, i as int),
        decreases a@.len() - i,
    {
        if a[i] != b[i] {
            return false;
        }
        assert(a@.subrange(0, i + 1) =~= a@.subrange(0, i as int).push(a@[i as int]));
        assert(b@.subrange(0, i + 1) =~= b@.subrange(0, i as int).push(b@[i as int]));
        i = i + 1;
    }
    assert(a@ =~= a@.subrange(0, i as int));
    assert(b@ =~= b@.subrange(0, i as int));
    true
}

/// The index of the last entry of `bucket` stored under `k`.
fn find_in<V>(bucket: &Vec<Entry<V>>, k: &Vec<Piece>) -> (r: Option<usize>)
    ensures
        match r {
            Some(i) => i < bucket@.len() && bucket@[i as int].key@ == k@
                && (forall|j: int| i < j < bucket@.len() ==> bucket@[j].key@ != k@)
                && find(bucket@, k@) == Some(bucket@[i as int].value),
            None => find(bucket@, k@) == None::<V>,
        },
{
    let mut j: usize = bucket.len();
    assert(bucket@.subrange(0, j as int) =~= bucket@);
    while j > 0
        invariant
            j <= bucket@.len(),
            find(bucket@, k@) == find(bucket@.subrange(0, j as int), k@),
            forall|t: int| j <= t < bucket@.len() ==> bucket@[t].key@ != k@,
        decreases j,
    {
        assert(bucket@.subrange(0, j as int).drop_last() =~= bucket@.subrange(0, j - 1));
        if same_cells(&bucket[j - 1].key, k) {
            return Some(j - 1);
        }
        j = j - 1;
    }
    None
}

} // verus!
