use vstd::prelude::*;
use std::collections::HashMap;
use crate::cells::VertexIndex;

verus! {

broadcast use vstd::std_specs::hash::group_hash_axioms;

/// The bucket that a key falls into.
pub open spec fn bucket_of(k: VertexIndex) -> u64 {
    (k.index.x as u64) ^ ((k.index.y as u64) << 21u64) ^ ((k.index.z as u64) << 42u64) ^ ((
    k.edges.bits as u64) << 52u64)
}

fn bucket(k: &VertexIndex) -> (r: u64)
    ensures
        r == bucket_of(*k),
{
    (k.index.x as u64) ^ ((k.index.y as u64) << 21u64) ^ ((k.index.z as u64) << 42u64) ^ ((
    k.edges.bits as u64) << 52u64)
}

pub(crate) fn copy_of(v: &Vec<usize>) -> (r: Vec<usize>)
    ensures
        r@ == v@,
{
    let mut r: Vec<usize> = Vec::new();
    let mut t: usize = 0;
    while t < v.len()
        invariant
            t <= v@.len(),
            r@ == v@.subrange(0, t as int),
        decreases v@.len() - t,
    {
        r.push(v[t]);
        t = t + 1;
    }
    assert(v@.subrange(0, v@.len() as int) == v@);
    r
}

/// A list of distinct cluster keys, each found by its key in expected
/// constant time.
pub struct KeyTable {
    keys: Vec<VertexIndex>,
    buckets: HashMap<u64, Vec<usize>>,
}

impl View for KeyTable {
    type V = Seq<VertexIndex>;

    /// The keys, in the order they were added.
    closed spec fn view(&self) -> Seq<VertexIndex> {
        self.keys@
    }
}

impl KeyTable {
    pub closed spec fn wf(&self) -> bool {
        &&& self.keys@.no_duplicates()
        &&& forall|j: int|
            0 <= j < self.keys@.len() ==> #[trigger] self.buckets@.contains_key(
                bucket_of(self.keys@[j]),
            ) && self.buckets@[bucket_of(self.keys@[j])]@.contains(j as usize)
        &&& forall|h: u64, t: int|
            #![trigger self.buckets@[h]@[t]]
            self.buckets@.contains_key(h) && 0 <= t < self.buckets@[h]@.len()
                ==> self.buckets@[h]@[t] < self.keys@.len()
    }

    /// An empty table.
    pub fn new() -> (r: KeyTable)
        ensures
            r.wf(),
            r@ == Seq::<VertexIndex>::empty(),
    {
        KeyTable { keys: Vec::new(), buckets: HashMap::new() }
    }

    /// The number of keys.
    pub fn len(&self) -> (r: usize)
        ensures
            r == self@.len(),
    {
        self.keys.len()
    }

    /// The key at position `i`.
    pub fn key(&self, i: usize) -> (r: VertexIndex)
        requires
            i < self@.len(),
        ensures
            r == self@[i as int],
    {
        self.keys[i]
    }

    /// The keys, which are distinct.
    pub fn into_keys(self) -> (r: Vec<VertexIndex>)
        requires
            self.wf(),
        ensures
            r@ == self@,
            r@.no_duplicates(),
    {
        self.keys
    }

    /// The position of `k`, if it is in the table.
    pub fn find(&self, k: &VertexIndex) -> (r: Option<usize>)
        requires
            self.wf(),
        ensures
            match r {
                Some(i) => i < self@.len() && self@[i as int] == *k,
                None => !self@.contains(*k),
            },
    {
        let h = bucket(k);
        let n = self.keys.len();
        let empty: Vec<usize> = Vec::new();
        let list = match self.buckets.get(&h) {
            None => &empty,
            Some(l) => l,
        };
        proof {
            if !self.buckets@.contains_key(h) {
                assert(list@.len() == 0);
            }
        }
        let mut t: usize = 0;
        let mut found: Option<usize> = None;
        while t < list.len() && found.is_none()
            invariant
                self.wf(),
                h == bucket_of(*k),
                self.buckets@.contains_key(h) ==> list@ == self.buckets@[h]@,
                !self.buckets@.contains_key(h) ==> list@.len() == 0,
                t <= list@.len(),
                forall|u: int| 0 <= u < t ==> self.keys@[list@[u] as int] != *k,
                match found {
                    Some(i) => i < self.keys@.len() && self.keys@[i as int] == *k,
                    None => true,
                },
            decreases list@.len() - t + (if found is None {
                1int
            } else {
                0
            }),
        {
            let i = list[t];
            assert(self.buckets@[h]@[t as int] < self.keys@.len());
            if self.keys[i] == *k {
                found = Some(i);
            } else {
                t = t + 1;
            }
        }
        proof {
            if found is None {
                assert(t == list@.len());
                assert(n == self.keys@.len());
                assert forall|j: int| 0 <= j < self.keys@.len() implies self.keys@[j] != *k by {
                    if self.keys@[j] == *k {
                        assert(self.buckets@.contains_key(bucket_of(self.keys@[j])));
                        assert(self.buckets@[h]@.contains(j as usize));
                        let u = choose|u: int| 0 <= u < list@.len() && list@[u] == j as usize;
                        assert(self.keys@[list@[u] as int] != *k);
                    }
                }
                assert(!self@.contains(*k));
            }
        }
        found
    }

    /// Adds `k`, which is not yet in the table, at the end; returns its position.
    pub fn push(&mut self, k: VertexIndex) -> (r: usize)
        requires
            old(self).wf(),
            !old(self)@.contains(k),
            old(self)@.len() < usize::MAX,
        ensures
            final(self).wf(),
            final(self)@ == old(self)@.push(k),
            r == old(self)@.len(),
    {
        let h = bucket(&k);
        let i = self.keys.len();
        let mut list: Vec<usize> = match self.buckets.get(&h) {
            Some(l) => copy_of(l),
            None => Vec::new(),
        };
        let ghost old_list = list@;
        list.push(i);
        let ghost old_buckets = self.buckets@;
        let ghost old_keys = self.keys@;
        self.keys.push(k);
        self.buckets.insert(h, list);
        proof {
            assert(old_list.len() > 0 ==> old_buckets.contains_key(h));
            assert forall|j: int|
                0 <= j < self.keys@.len() implies #[trigger] self.buckets@.contains_key(
                bucket_of(self.keys@[j]),
            ) && self.buckets@[bucket_of(self.keys@[j])]@.contains(j as usize) by {
                if j < old_keys.len() {
                    assert(self.keys@[j] == old_keys[j]);
                    assert(old_buckets.contains_key(bucket_of(old_keys[j])));
                    assert(old_buckets[bucket_of(old_keys[j])]@.contains(j as usize));
                    if bucket_of(old_keys[j]) == h {
                        let u = choose|u: int|
                            0 <= u < old_buckets[h]@.len() && old_buckets[h]@[u] == j as usize;
                        assert(self.buckets@[h]@[u] == j as usize);
                    } else {
                        assert(self.buckets@[bucket_of(old_keys[j])] == old_buckets[bucket_of(
                            old_keys[j],
                        )]);
                    }
                } else {
                    assert(self.keys@[j] == k);
                    assert(self.buckets@[h]@[old_list.len() as int] == i);
                }
            }
            assert forall|h2: u64, t: int|
                self.buckets@.contains_key(h2) && 0 <= t < self.buckets@[h2]@.len() implies
                #[trigger] self.buckets@[h2]@[t] < self.keys@.len() by {
                if h2 == h && t < old_list.len() {
                    assert(old_buckets[h]@[t] < old_keys.len());
                }
            }
            assert forall|a: int, b: int|
                0 <= a < b < self.keys@.len() implies self.keys@[a] != self.keys@[b] by {
                if b == old_keys.len() {
                    assert(old_keys.contains(old_keys[a]));
                }
            }
        }
        i
    }
}

} // verus!
