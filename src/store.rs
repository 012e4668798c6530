//! The expiring key-value store: a dense vector of entries, so that a key
//! can be drawn uniformly at random, and a hash index from keys to their
//! positions; expiry is checked on every access.
use rand::Rng;
use vstd::prelude::*;

use crate::bytes::{bytes_eq, clone_bytes};

verus! {

/// What a stored value means: its content and its expiry, in milliseconds
/// since the Unix epoch.
pub type Stored = (Seq<u8>, Option<u64>);

/// An entry is expired when its expiry is set and is at or before `now`.
pub open spec fn expired(v: Stored, now: u64) -> bool {
    match v.1 {
        Some(t) => t <= now,
        None => false,
    }
}

/// `k` is in the store and not expired.
pub open spec fn live(m: Map<Seq<u8>, Stored>, k: Seq<u8>, now: u64) -> bool {
    m.contains_key(k) && !expired(m[k], now)
}

/// Every entry of the map is expired.
pub open spec fn all_expired(m: Map<Seq<u8>, Stored>, now: u64) -> bool {
    forall|k: Seq<u8>| #[trigger] m.contains_key(k) ==> expired(m[k], now)
}

/// After `set` of a value without expiry, `get` of the same key finds that
/// value.
pub proof fn lemma_set_then_get(m: Map<Seq<u8>, Stored>, k: Seq<u8>, v: Stored, now: u64)
    requires
        v.1 is None,
    ensures
        live(m.insert(k, v), k, now),
        m.insert(k, v)[k] == v,
{
}

/// After `set` and then `delete` of a key, `get` of it finds nothing.
pub proof fn lemma_set_delete_get(m: Map<Seq<u8>, Stored>, k: Seq<u8>, v: Stored)
    ensures
        !m.insert(k, v).remove(k).contains_key(k),
{
}

/// After `set` of a value whose expiry is already past, `get` of the key
/// finds it expired: it reads as absent, and removing it takes the size
/// down by one.
pub proof fn lemma_set_expired_then_get(m: Map<Seq<u8>, Stored>, k: Seq<u8>, v: Stored, now: u64)
    requires
        m.dom().finite(),
        v.1 matches Some(t) && t <= now,
    ensures
        m.insert(k, v).contains_key(k),
        expired(m.insert(k, v)[k], now),
        !live(m.insert(k, v), k, now),
        m.insert(k, v).remove(k).dom().len() == m.insert(k, v).dom().len() - 1,
{
    let m1 = m.insert(k, v);
    assert(m1.dom().finite());
    assert(m1.remove(k).dom() =~= m1.dom().remove(k));
}

/// When every entry is expired, removing one leaves every entry expired and
/// one fewer: so each probe of active eviction removes an entry, and as
/// many probes as entries empty the store.
pub proof fn lemma_expired_drain(m: Map<Seq<u8>, Stored>, k: Seq<u8>, now: u64)
    requires
        m.dom().finite(),
        all_expired(m, now),
        m.contains_key(k),
    ensures
        all_expired(m.remove(k), now),
        m.remove(k).dom().len() == m.dom().len() - 1,
{
    assert(m.remove(k).dom() =~= m.dom().remove(k));
}

/// A stored value: the content and an optional absolute expiry in
/// milliseconds since the Unix epoch (`None`: never expires).
#[derive(Debug)]
pub struct RedisValue {
    pub content: Vec<u8>,
    pub expiry: Option<u64>,
}

impl View for RedisValue {
    type V = Stored;

    open spec fn view(&self) -> Stored {
        (self.content@, self.expiry)
    }
}

impl RedisValue {
    /// A copy of the value.
    pub fn duplicate(&self) -> (r: RedisValue)
        ensures
            r@ == self@,
    {
        RedisValue { content: clone_bytes(&self.content), expiry: self.expiry }
    }
}

/// One entry of the dense vector: a key and its value.
struct Slot {
    key: Vec<u8>,
    value: RedisValue,
}

/// The hash of a key: the key's bytes folded by `h * 33 + b`, modulo a
/// prime below 2^32.
pub open spec fn hash_of(k: Seq<u8>) -> nat
    decreases k.len(),
{
    if k.len() == 0 {
        5381
    } else {
        (hash_of(k.drop_last()) * 33 + k.last() as nat) % 4294967291
    }
}

/// The bucket of a key among `nb` buckets.
pub open spec fn bucket_of(k: Seq<u8>, nb: nat) -> int {
    (hash_of(k) % nb) as int
}

fn hash_bytes(key: &[u8]) -> (r: u64)
    ensures
        r as nat == hash_of(key@),
        r < 4294967291,
{
    let mut h: u64 = 5381;
    let mut i: usize = 0;
    while i < key.len()
        invariant
            i <= key@.len(),
            h as nat == hash_of(key@.take(i as int)),
            h < 4294967291,
        decreases key@.len() - i,
    {
        assert(key@.take(i + 1 as int).drop_last() =~= key@.take(i as int));
        h = (h * 33 + key[i] as u64) % 4294967291;
        i += 1;
    }
    assert(key@.take(i as int) =~= key@);
    h
}

/// The keys of the dense vector, in order.
spec fn keys_of(v: Seq<Slot>) -> Seq<Seq<u8>> {
    Seq::new(v.len(), |i: int| v[i].key@)
}

/// A hash index over the dense vector: bucket `b` holds the indices of the
/// keys that hash to `b`.
struct KeyIndex {
    buckets: Vec<Vec<usize>>,
}

impl KeyIndex {
    /// The index is right for `keys`: each bucket holds, once each, exactly
    /// the indices of the keys that hash to it.
    closed spec fn ok(&self, keys: Seq<Seq<u8>>) -> bool {
        let nb = self.buckets@.len();
        &&& nb > 0
        &&& forall|b: int, x: usize|
            0 <= b < nb && #[trigger] self.buckets@[b]@.contains(x) ==> x < keys.len()
                && bucket_of(keys[x as int], nb) == b
        &&& forall|i: int|
            0 <= i < keys.len() ==> self.buckets@[bucket_of(#[trigger] keys[i], nb)]@.contains(
                i as usize,
            )
        &&& forall|b: int| 0 <= b < nb ==> (#[trigger] self.buckets@[b]@).no_duplicates()
    }

    closed spec fn nb(&self) -> nat {
        self.buckets@.len()
    }

    /// An index of `nb` empty buckets.
    fn empty(nb: usize) -> (r: KeyIndex)
        requires
            nb > 0,
        ensures
            r.ok(Seq::empty()),
            r.nb() == nb,
    {
        let mut buckets: Vec<Vec<usize>> = Vec::new();
        let mut b: usize = 0;
        while b < nb
            invariant
                b <= nb,
                buckets@.len() == b,
                forall|c: int| 0 <= c < b ==> (#[trigger] buckets@[c])@.len() == 0,
            decreases nb - b,
        {
            buckets.push(Vec::new());
            b += 1;
        }
        let r = KeyIndex { buckets };
        assert forall|c: int| 0 <= c < nb implies (#[trigger] r.buckets@[c]@).no_duplicates() by {
            assert(r.buckets@[c]@.len() == 0);
        }
        r
    }

    /// The bucket of `key`.
    fn slot(&self, key: &[u8]) -> (r: usize)
        requires
            self.nb() > 0,
        ensures
            r as int == bucket_of(key@, self.nb()),
            r < self.nb(),
    {
        let h = hash_bytes(key);
        (h % (self.buckets.len() as u64)) as usize
    }

    /// The index of `key` among the slots, if it is there.
    fn lookup(&self, slots: &Vec<Slot>, key: &[u8]) -> (r: Option<usize>)
        requires
            self.ok(keys_of(slots@)),
        ensures
            match r {
                Some(i) => i < slots@.len() && slots@[i as int].key@ == key@,
                None => forall|i: int| 0 <= i < slots@.len() ==> slots@[i].key@ != key@,
            },
    {
        let ghost keys = keys_of(slots@);
        let n = slots.len();
        let b = self.slot(key);
        let bucket = &self.buckets[b];
        let mut j: usize = 0;
        while j < bucket.len()
            invariant
                self.ok(keys),
                keys == keys_of(slots@),
                b < self.nb(),
                b as int == bucket_of(key@, self.nb()),
                *bucket == self.buckets@[b as int],
                j <= bucket@.len(),
                forall|jj: int| 0 <= jj < j ==> keys[bucket@[jj] as int] != key@,
            decreases bucket@.len() - j,
        {
            let idx = bucket[j];
            assert(self.buckets@[b as int]@.contains(idx));
            if crate::bytes::bytes_eq(slots[idx].key.as_slice(), key) {
                return Some(idx);
            }
            assert(keys[idx as int] == slots@[idx as int].key@);
            j += 1;
        }
        assert forall|i: int| 0 <= i < slots@.len() implies slots@[i].key@ != key@ by {
            if slots@[i].key@ == key@ {
                assert(keys[i] == key@);
                assert(i < n);
                assert(bucket_of(keys[i], self.nb()) == b as int);
                assert(self.buckets@[bucket_of(keys[i], self.nb())]@.contains(i as usize));
                let jj = choose|jj: int| 0 <= jj < bucket@.len() && bucket@[jj] == i as usize;
                assert(keys[bucket@[jj] as int] != key@);
            }
        }
        None
    }

    /// Adds index `i` for a key appended at the end of the slots.
    fn insert(&mut self, keys: Ghost<Seq<Seq<u8>>>, key: &[u8], i: usize)
        requires
            old(self).ok(keys@),
            i == keys@.len(),
        ensures
            final(self).ok(keys@.push(key@)),
            final(self).nb() == old(self).nb(),
    {
        let ghost ks = keys@;
        let ghost nk = ks.push(key@);
        let ghost ob = self.buckets@;
        let b = self.slot(key);
        let mut bucket: Vec<usize> = Vec::new();
        std::mem::swap(&mut self.buckets[b], &mut bucket);
        let ghost old_bucket = bucket@;
        assert(old_bucket == ob[b as int]@);
        bucket.push(i);
        self.buckets.set(b, bucket);
        proof {
            let nb = ob.len();
            let nbs = self.buckets@;
            assert(nbs.len() == nb);
            assert(forall|c: int| 0 <= c < nb && c != b ==> nbs[c] == ob[c]);
            assert(nbs[b as int]@ == old_bucket.push(i));
            assert forall|c: int, x: usize| 0 <= c < nb && #[trigger] nbs[c]@.contains(x) implies x
                < nk.len() && bucket_of(nk[x as int], nb) == c by {
                if c == b {
                    if x != i {
                        let j = choose|j: int| 0 <= j < nbs[c]@.len() && nbs[c]@[j] == x;
                        assert(old_bucket[j] == x);
                        assert(ob[c]@.contains(x));
                    }
                } else {
                    assert(ob[c]@.contains(x));
                }
            }
            assert forall|k: int| 0 <= k < nk.len() implies nbs[bucket_of(#[trigger] nk[k], nb)]@.contains(
                k as usize,
            ) by {
                if k < ks.len() {
                    assert(nk[k] == ks[k]);
                    let c = bucket_of(ks[k], nb);
                    assert(ob[c]@.contains(k as usize));
                    if c == b {
                        let j = choose|j: int| 0 <= j < old_bucket.len() && old_bucket[j] == k as usize;
                        assert(nbs[c]@[j] == k as usize);
                    }
                } else {
                    assert(nbs[b as int]@[old_bucket.len() as int] == i);
                }
            }
            assert forall|c: int| 0 <= c < nb implies (#[trigger] nbs[c]@).no_duplicates() by {
                if c == b {
                    assert(!old_bucket.contains(i));
                    assert(ob[c]@.no_duplicates());
                }
            }
        }
    }

    /// Removes index `v` from bucket `b`.
    fn remove_value(&mut self, b: usize, v: usize)
        requires
            b < old(self).nb(),
            old(self).buckets@[b as int]@.contains(v),
            old(self).buckets@[b as int]@.no_duplicates(),
        ensures
            final(self).buckets@.len() == old(self).buckets@.len(),
            forall|c: int|
                0 <= c < old(self).nb() && c != b ==> final(self).buckets@[c] == old(self).buckets@[c],
            forall|x: usize|
                #[trigger] final(self).buckets@[b as int]@.contains(x) <==> old(self).buckets@[b
                    as int]@.contains(x) && x != v,
            final(self).buckets@[b as int]@.no_duplicates(),
    {
        let mut bucket: Vec<usize> = Vec::new();
        std::mem::swap(&mut self.buckets[b], &mut bucket);
        let ghost ob = bucket@;
        let mut p: usize = 0;
        while p < bucket.len() && bucket[p] != v
            invariant
                bucket@ == ob,
                p <= ob.len(),
                forall|q: int| 0 <= q < p ==> ob[q] != v,
            decreases ob.len() - p,
        {
            p += 1;
        }
        assert(p < ob.len());
        bucket.swap_remove(p);
        let ghost last = ob.len() - 1;
        proof {
            let nbk = bucket@;
            assert forall|x: usize| #[trigger] nbk.contains(x) <==> ob.contains(x) && x != v by {
                if nbk.contains(x) {
                    let j = choose|j: int| 0 <= j < nbk.len() && nbk[j] == x;
                    if j == p {
                        assert(ob[last] == x);
                        assert(last != p);
                    } else {
                        assert(ob[j] == x);
                    }
                }
                if ob.contains(x) && x != v {
                    let j = choose|j: int| 0 <= j < ob.len() && ob[j] == x;
                    if j == last {
                        assert(nbk[p as int] == x);
                    } else {
                        assert(nbk[j] == x);
                    }
                }
            }
            assert forall|i: int, j: int| 0 <= i < nbk.len() && 0 <= j < nbk.len() && i != j implies nbk[i]
                != nbk[j] by {
                let oi = if i == p { last } else { i };
                let oj = if j == p { last } else { j };
                assert(nbk[i] == ob[oi]);
                assert(nbk[j] == ob[oj]);
            }
        }
        self.buckets.set(b, bucket);
    }

    /// Replaces index `from` by `to` in bucket `b`.
    fn replace_value(&mut self, b: usize, from: usize, to: usize)
        requires
            b < old(self).nb(),
            old(self).buckets@[b as int]@.contains(from),
            !old(self).buckets@[b as int]@.contains(to),
            old(self).buckets@[b as int]@.no_duplicates(),
        ensures
            final(self).buckets@.len() == old(self).buckets@.len(),
            forall|c: int|
                0 <= c < old(self).nb() && c != b ==> final(self).buckets@[c] == old(self).buckets@[c],
            forall|x: usize|
                #[trigger] final(self).buckets@[b as int]@.contains(x) <==> (old(self).buckets@[b
                    as int]@.contains(x) && x != from) || x == to,
            final(self).buckets@[b as int]@.no_duplicates(),
    {
        let mut bucket: Vec<usize> = Vec::new();
        std::mem::swap(&mut self.buckets[b], &mut bucket);
        let ghost ob = bucket@;
        let mut p: usize = 0;
        while p < bucket.len() && bucket[p] != from
            invariant
                bucket@ == ob,
                p <= ob.len(),
                forall|q: int| 0 <= q < p ==> ob[q] != from,
            decreases ob.len() - p,
        {
            p += 1;
        }
        assert(p < ob.len());
        bucket.set(p, to);
        proof {
            let nbk = bucket@;
            assert forall|x: usize| #[trigger] nbk.contains(x) <==> (ob.contains(x) && x != from) || x
                == to by {
                if nbk.contains(x) {
                    let j = choose|j: int| 0 <= j < nbk.len() && nbk[j] == x;
                    if j != p {
                        assert(ob[j] == x);
                    }
                }
                if ob.contains(x) && x != from {
                    let j = choose|j: int| 0 <= j < ob.len() && ob[j] == x;
                    assert(nbk[j] == x);
                }
                if x == to {
                    assert(nbk[p as int] == x);
                }
            }
            assert forall|i: int, j: int| 0 <= i < nbk.len() && 0 <= j < nbk.len() && i != j implies nbk[i]
                != nbk[j] by {
                if i == p {
                    assert(nbk[j] == ob[j]);
                    assert(ob.contains(ob[j]));
                } else if j == p {
                    assert(nbk[i] == ob[i]);
                    assert(ob.contains(ob[i]));
                }
            }
        }
        self.buckets.set(b, bucket);
    }

    /// Updates the index for the removal of slot `del_i` by moving the last
    /// slot into its place.
    fn remove(&mut self, slots: &Vec<Slot>, del_i: usize)
        requires
            old(self).ok(keys_of(slots@)),
            del_i < slots@.len(),
        ensures
            final(self).ok(
                keys_of(slots@).update(del_i as int, keys_of(slots@).last()).drop_last(),
            ),
            final(self).nb() == old(self).nb(),
    {
        let ghost keys = keys_of(slots@);
        let ghost nb = self.nb();
        let ghost ob = self.buckets@;
        let last = slots.len() - 1;
        let ghost nk = keys.update(del_i as int, keys[last as int]).drop_last();
        let b = self.slot(slots[del_i].key.as_slice());
        assert(keys[del_i as int] == slots@[del_i as int].key@);
        assert(ob[b as int]@.contains(del_i));
        self.remove_value(b, del_i);
        let ghost mid = self.buckets@;
        if del_i != last {
            let b2 = self.slot(slots[last].key.as_slice());
            assert(keys[last as int] == slots@[last as int].key@);
            assert(ob[b2 as int]@.contains(last));
            assert(mid[b2 as int]@.contains(last));
            assert(!mid[b2 as int]@.contains(del_i)) by {
                if b2 != b && mid[b2 as int]@.contains(del_i) {
                    assert(ob[b2 as int]@.contains(del_i));
                }
            }
            assert(mid[b2 as int]@.no_duplicates()) by {
                if b2 != b {
                    assert(ob[b2 as int]@.no_duplicates());
                }
            }
            self.replace_value(b2, last, del_i);
        }
        proof {
            let nbs = self.buckets@;
            assert(nbs.len() == nb);
            // Where each index can be, after the two updates.
            assert forall|c: int, x: usize| 0 <= c < nb && nbs[c]@.contains(x) implies (x == del_i
                && del_i != last && c == bucket_of(keys[last as int], nb)) || (ob[c]@.contains(x) && x
                != del_i && x != last) by {
                if del_i != last && c == bucket_of(keys[last as int], nb) {
                    if x != del_i {
                        assert(mid[c]@.contains(x));
                        assert(ob[c]@.contains(x));
                    }
                } else {
                    assert(mid[c] == nbs[c]);
                    assert(mid[c]@.contains(x));
                    if c != b {
                        assert(ob[c]@.contains(x));
                    }
                    assert(ob[c]@.contains(x));
                    if x == last && del_i != last {
                        assert(bucket_of(keys[last as int], nb) == c);
                    }
                }
            }
            assert forall|c: int, x: usize| 0 <= c < nb && #[trigger] nbs[c]@.contains(x) implies x
                < nk.len() && bucket_of(nk[x as int], nb) == c by {
                if x == del_i && del_i != last && c == bucket_of(keys[last as int], nb) {
                    assert(nk[x as int] == keys[last as int]);
                } else {
                    assert(ob[c]@.contains(x));
                    assert(nk[x as int] == keys[x as int]);
                }
            }
            assert forall|k: int| 0 <= k < nk.len() implies nbs[bucket_of(#[trigger] nk[k], nb)]@.contains(
                k as usize,
            ) by {
                if k == del_i {
                    assert(nk[k] == keys[last as int]);
                    let c = bucket_of(keys[last as int], nb);
                    assert(nbs[c]@.contains(del_i));
                } else {
                    assert(nk[k] == keys[k]);
                    let c = bucket_of(keys[k], nb);
                    assert(ob[c]@.contains(k as usize));
                    if c == b {
                        assert(mid[c]@.contains(k as usize));
                    } else {
                        assert(mid[c] == ob[c]);
                    }
                    if del_i != last && c == bucket_of(keys[last as int], nb) {
                        assert(nbs[c]@.contains(k as usize));
                    } else {
                        assert(nbs[c] == mid[c]);
                    }
                }
            }
            assert forall|c: int| 0 <= c < nb implies (#[trigger] nbs[c]@).no_duplicates() by {
                if c != b && !(del_i != last && c == bucket_of(keys[last as int], nb)) {
                    assert(nbs[c] == ob[c]);
                } else if c == b && !(del_i != last && c == bucket_of(keys[last as int], nb)) {
                    assert(nbs[c] == mid[c]);
                }
            }
        }
    }

    /// An index of `nb` buckets for the slots.
    fn build(slots: &Vec<Slot>, nb: usize) -> (r: KeyIndex)
        requires
            nb > 0,
        ensures
            r.ok(keys_of(slots@)),
            r.nb() == nb,
    {
        let ghost keys = keys_of(slots@);
        let mut index = KeyIndex::empty(nb);
        assert(keys.take(0) =~= Seq::<Seq<u8>>::empty());
        let mut i: usize = 0;
        while i < slots.len()
            invariant
                i <= slots@.len(),
                keys == keys_of(slots@),
                index.ok(keys.take(i as int)),
                index.nb() == nb,
            decreases slots@.len() - i,
        {
            index.insert(Ghost(keys.take(i as int)), slots[i].key.as_slice(), i);
            assert(keys.take(i as int).push(slots@[i as int].key@) =~= keys.take(i + 1 as int));
            i += 1;
        }
        assert(keys.take(i as int) =~= keys);
        index
    }
}

/// The store. Entry `i` of the dense vector holds a key and its value; the
/// model maps each key to its value. Expired entries may stay until an
/// operation touches them.
pub struct RandomMap {
    vec: Vec<Slot>,
    index: KeyIndex,
    model: Ghost<Map<Seq<u8>, Stored>>,
}

impl View for RandomMap {
    type V = Map<Seq<u8>, Stored>;

    closed spec fn view(&self) -> Map<Seq<u8>, Stored> {
        self.model@
    }
}

/// Relies on rand's `thread_rng().gen_range(0..n)`: a uniformly drawn
/// value below `n`. It panics on an empty range, which `n > 0` rules out.
#[verifier::external_body]
fn random_index(n: usize) -> (r: usize)
    requires
        n > 0,
    ensures
        r < n,
{
    rand::thread_rng().gen_range(0..n)
}

impl RandomMap {
    /// The number of entries in the dense vector.
    pub closed spec fn size(&self) -> nat {
        self.vec@.len()
    }

    /// The key held at index `i` of the dense vector.
    pub closed spec fn key_at(&self, i: int) -> Seq<u8> {
        self.vec@[i].key@
    }

    /// The index at which key `k` stands in the dense vector.
    pub closed spec fn index_of(&self, k: Seq<u8>) -> int {
        choose|i: int| 0 <= i < self.size() && self.key_at(i) == k
    }

    /// The store's invariant: keys are unique in the dense vector, the
    /// model maps exactly those keys, each to the value beside it, and the
    /// hash index finds each key's position.
    pub closed spec fn wf(&self) -> bool {
        &&& self.index.ok(keys_of(self.vec@))
        &&& forall|i: int, j: int|
            0 <= i < j < self.vec@.len() ==> #[trigger] self.vec@[i].key@ != #[trigger] self.vec@[j].key@
        &&& forall|i: int|
            0 <= i < self.vec@.len() ==> self.model@.contains_key(#[trigger] self.vec@[i].key@)
                && self.model@[self.vec@[i].key@] == self.vec@[i].value@
        &&& forall|k: Seq<u8>|
            #[trigger] self.model@.contains_key(k) ==> exists|i: int|
                0 <= i < self.vec@.len() && #[trigger] self.vec@[i].key@ == k
    }

    /// At every step the model and the dense vector have the same size, and
    /// each key of the model stands in the vector at its index.
    pub proof fn lemma_index_consistent(&self)
        requires
            self.wf(),
        ensures
            self@.dom().finite(),
            self@.dom().len() == self.size(),
            forall|k: Seq<u8>| #[trigger]
                self@.contains_key(k) ==> 0 <= self.index_of(k) < self.size() && self.key_at(
                    self.index_of(k),
                ) == k,
    {
        let keys = Seq::new(self.vec@.len(), |i: int| self.vec@[i].key@);
        assert(keys.no_duplicates()) by {
            assert forall|i: int, j: int|
                0 <= i < keys.len() && 0 <= j < keys.len() && i != j implies keys[i] != keys[j] by {
                if i < j {
                    assert(self.vec@[i].key@ != self.vec@[j].key@);
                } else {
                    assert(self.vec@[j].key@ != self.vec@[i].key@);
                }
            }
        }
        assert(self@.dom() =~= keys.to_set()) by {
            assert forall|k: Seq<u8>| self@.dom().contains(k) implies keys.to_set().contains(k) by {
                let i = choose|i: int| 0 <= i < self.vec@.len() && #[trigger] self.vec@[i].key@ == k;
                assert(keys[i] == k);
            }
            assert forall|k: Seq<u8>| keys.to_set().contains(k) implies self@.dom().contains(k) by {
                let i = choose|i: int| 0 <= i < keys.len() && keys[i] == k;
                assert(self.vec@[i].key@ == k);
            }
        }
        keys.unique_seq_to_set();
        assert forall|k: Seq<u8>| #[trigger]
            self@.contains_key(k) implies 0 <= self.index_of(k) < self.size() && self.key_at(
                self.index_of(k),
            ) == k by {
            let i = choose|i: int| 0 <= i < self.vec@.len() && #[trigger] self.vec@[i].key@ == k;
            assert(self.key_at(i) == k);
        }
    }

    /// An empty store.
    pub fn new() -> (r: Self)
        ensures
            r.wf(),
            r@ == Map::<Seq<u8>, Stored>::empty(),
    {
        let r = RandomMap { vec: Vec::new(), index: KeyIndex::empty(8), model: Ghost(Map::empty()) };
        assert(keys_of(r.vec@) =~= Seq::<Seq<u8>>::empty());
        r
    }

    /// The number of entries, expired ones included.
    pub fn len(&self) -> (r: usize)
        requires
            self.wf(),
        ensures
            r == self@.dom().len(),
            r == self.size(),
    {
        proof {
            self.lemma_index_consistent();
        }
        self.vec.len()
    }

    /// The index of `key` in the dense vector, if it is there.
    fn find(&self, key: &[u8]) -> (r: Option<usize>)
        requires
            self.wf(),
        ensures
            match r {
                Some(i) => i < self.size() && self.key_at(i as int) == key@ && self@.contains_key(
                    key@,
                ),
                None => !self@.contains_key(key@),
            },
    {
        let r = self.index.lookup(&self.vec, key);
        proof {
            if r is None && self@.contains_key(key@) {
                let i = choose|i: int| 0 <= i < self.vec@.len() && #[trigger] self.vec@[i].key@ == key@;
            }
        }
        r
    }

    /// Removes the entry at `del_i` by moving the last entry into its place,
    /// so that the vector stays dense; returns the removed value.
    fn reorganize_map_vec(&mut self, del_i: usize) -> (r: RedisValue)
        requires
            old(self).wf(),
            del_i < old(self).size(),
        ensures
            final(self).wf(),
            final(self)@ == old(self)@.remove(old(self).key_at(del_i as int)),
            r@ == old(self)@[old(self).key_at(del_i as int)],
    {
        let ghost k = self.vec@[del_i as int].key@;
        let ghost old_vec = self.vec@;
        let ghost last = (old_vec.len() - 1) as int;
        self.index.remove(&self.vec, del_i);
        let slot = self.vec.swap_remove(del_i);
        proof {
            let ok = keys_of(old_vec);
            assert(keys_of(self.vec@) =~= ok.update(del_i as int, ok.last()).drop_last());
            self.model@ = self.model@.remove(k);
            let nv = self.vec@;
            assert(forall|j: int| 0 <= j < nv.len() && j != del_i ==> nv[j] == old_vec[j]);
            assert(del_i < nv.len() ==> nv[del_i as int] == old_vec[last]);
            assert forall|i: int, j: int| 0 <= i < j < nv.len() implies #[trigger] nv[i].key@
                != #[trigger] nv[j].key@ by {
                let oi = if i == del_i { last } else { i };
                let oj = if j == del_i { last } else { j };
                assert(nv[i] == old_vec[oi]);
                assert(nv[j] == old_vec[oj]);
                if oi < oj {
                    assert(old_vec[oi].key@ != old_vec[oj].key@);
                } else {
                    assert(old_vec[oj].key@ != old_vec[oi].key@);
                }
            }
            assert forall|i: int| 0 <= i < nv.len() implies self.model@.contains_key(
                #[trigger] nv[i].key@,
            ) && self.model@[nv[i].key@] == nv[i].value@ by {
                let oi = if i == del_i { last } else { i };
                assert(nv[i] == old_vec[oi]);
                if (oi as int) < del_i {
                    assert(old_vec[oi].key@ != old_vec[del_i as int].key@);
                } else {
                    assert(old_vec[del_i as int].key@ != old_vec[oi].key@);
                }
            }
            assert forall|kk: Seq<u8>| #[trigger] self.model@.contains_key(kk) implies exists|i: int|
                0 <= i < nv.len() && #[trigger] nv[i].key@ == kk by {
                let oi = choose|i: int| 0 <= i < old_vec.len() && #[trigger] old_vec[i].key@ == kk;
                assert(oi != del_i);
                if oi == last {
                    assert(nv[del_i as int].key@ == kk);
                } else {
                    assert(nv[oi].key@ == kk);
                }
            }
        }
        slot.value
    }

    /// Removes `key` if its entry is expired, returning the removed value.
    pub fn evict(&mut self, key: &[u8], now: u64) -> (r: Option<RedisValue>)
        requires
            old(self).wf(),
        ensures
            final(self).wf(),
            if old(self)@.contains_key(key@) && expired(old(self)@[key@], now) {
                &&& final(self)@ == old(self)@.remove(key@)
                &&& r matches Some(v) && v@ == old(self)@[key@]
            } else {
                final(self)@ == old(self)@ && r is None
            },
    {
        match self.find(key) {
            Some(i) => {
                let is_expired = match self.vec[i].value.expiry {
                    Some(t) => t <= now,
                    None => false,
                };
                if is_expired {
                    Some(self.reorganize_map_vec(i))
                } else {
                    None
                }
            },
            None => None,
        }
    }

    /// Removes `key`. Returns the removed value when there was a live one; an
    /// expired entry is removed too and counts as absent.
    pub fn del(&mut self, key: &[u8], now: u64) -> (r: Option<RedisValue>)
        requires
            old(self).wf(),
        ensures
            final(self).wf(),
            final(self)@ == old(self)@.remove(key@),
            r is Some <==> old(self)@.contains_key(key@) && !expired(old(self)@[key@], now),
            r matches Some(v) ==> v@ == old(self)@[key@],
    {
        if self.evict(key, now).is_some() {
            return None;
        }
        match self.find(key) {
            Some(i) => Some(self.reorganize_map_vec(i)),
            None => {
                assert(self@.remove(key@) =~= self@);
                None
            },
        }
    }

    /// Reads `key`. An expired entry is removed and reads as absent.
    pub fn get(&mut self, key: &[u8], now: u64) -> (r: Option<RedisValue>)
        requires
            old(self).wf(),
        ensures
            final(self).wf(),
            if old(self)@.contains_key(key@) && expired(old(self)@[key@], now) {
                final(self)@ == old(self)@.remove(key@) && r is None
            } else {
                &&& final(self)@ == old(self)@
                &&& r is Some <==> old(self)@.contains_key(key@)
                &&& r matches Some(v) ==> v@ == old(self)@[key@]
            },
    {
        self.evict(key, now);
        match self.find(key) {
            Some(i) => Some(self.vec[i].value.duplicate()),
            None => None,
        }
    }

    /// Inserts or replaces `key`. Returns the previous value when there was a
    /// live one; an expired previous entry is evicted first.
    pub fn set(&mut self, key: Vec<u8>, new_r: RedisValue, now: u64) -> (r: Option<RedisValue>)
        requires
            old(self).wf(),
        ensures
            final(self).wf(),
            final(self)@ == old(self)@.insert(key@, new_r@),
            r is Some <==> old(self)@.contains_key(key@) && !expired(old(self)@[key@], now),
            r matches Some(v) ==> v@ == old(self)@[key@],
    {
        self.evict(key.as_slice(), now);
        match self.find(key.as_slice()) {
            Some(i) => {
                let ghost k = key@;
                let ghost old_vec = self.vec@;
                let mut old_slot = Slot { key, value: new_r };
                std::mem::swap(&mut self.vec[i], &mut old_slot);
                proof {
                    assert(keys_of(self.vec@) =~= keys_of(old_vec));
                    self.model@ = self.model@.insert(k, self.vec@[i as int].value@);
                    let nv = self.vec@;
                    assert(forall|j: int| 0 <= j < nv.len() && j != i ==> nv[j] == old_vec[j]);
                    assert forall|a: int, b: int| 0 <= a < b < nv.len() implies #[trigger] nv[a].key@
                        != #[trigger] nv[b].key@ by {
                        assert(old_vec[a].key@ != old_vec[b].key@);
                    }
                    assert forall|a: int| 0 <= a < nv.len() implies self.model@.contains_key(
                        #[trigger] nv[a].key@,
                    ) && self.model@[nv[a].key@] == nv[a].value@ by {
                        if a != i {
                            if a < i {
                                assert(old_vec[a].key@ != old_vec[i as int].key@);
                            } else {
                                assert(old_vec[i as int].key@ != old_vec[a].key@);
                            }
                        }
                    }
                    assert forall|kk: Seq<u8>| #[trigger] self.model@.contains_key(kk) implies exists|
                        a: int,
                    | 0 <= a < nv.len() && #[trigger] nv[a].key@ == kk by {
                        if kk != k {
                            let oa = choose|a: int|
                                0 <= a < old_vec.len() && #[trigger] old_vec[a].key@ == kk;
                            assert(nv[oa].key@ == kk);
                        } else {
                            assert(nv[i as int].key@ == kk);
                        }
                    }
                }
                Some(old_slot.value)
            },
            None => {
                let ghost k = key@;
                let ghost v = new_r@;
                let ghost old_vec = self.vec@;
                let n = self.vec.len();
                self.index.insert(Ghost(keys_of(self.vec@)), key.as_slice(), n);
                self.vec.push(Slot { key, value: new_r });
                proof {
                    assert(keys_of(self.vec@) =~= keys_of(old_vec).push(k));
                    self.model@ = self.model@.insert(k, v);
                    let nv = self.vec@;
                    let n = old_vec.len() as int;
                    assert(forall|j: int| 0 <= j < n ==> nv[j] == old_vec[j]);
                    assert forall|a: int, b: int| 0 <= a < b < nv.len() implies #[trigger] nv[a].key@
                        != #[trigger] nv[b].key@ by {
                        if b < n {
                            assert(old_vec[a].key@ != old_vec[b].key@);
                        } else {
                            assert(old_vec[a].key@ != k);
                        }
                    }
                    assert forall|a: int| 0 <= a < nv.len() implies self.model@.contains_key(
                        #[trigger] nv[a].key@,
                    ) && self.model@[nv[a].key@] == nv[a].value@ by {
                        if a < n {
                            assert(old_vec[a].key@ != k);
                        }
                    }
                    assert forall|kk: Seq<u8>| #[trigger] self.model@.contains_key(kk) implies exists|
                        a: int,
                    | 0 <= a < nv.len() && #[trigger] nv[a].key@ == kk by {
                        if kk != k {
                            let oa = choose|a: int|
                                0 <= a < old_vec.len() && #[trigger] old_vec[a].key@ == kk;
                            assert(nv[oa].key@ == kk);
                        } else {
                            assert(nv[n].key@ == kk);
                        }
                    }
                }
                let nb = self.index.buckets.len();
                if nb <= usize::MAX / 4 && self.vec.len() > nb * 2 {
                    self.index = KeyIndex::build(&self.vec, nb * 2);
                }
                None
            },
        }
    }

    /// Reads `key` without evicting: the value if it is there and live.
    pub fn peek(&self, key: &[u8], now: u64) -> (r: Option<RedisValue>)
        requires
            self.wf(),
        ensures
            r is Some <==> live(self@, key@, now),
            r matches Some(v) ==> v@ == self@[key@],
    {
        match self.find(key) {
            Some(i) => {
                let is_expired = match self.vec[i].value.expiry {
                    Some(t) => t <= now,
                    None => false,
                };
                if is_expired {
                    None
                } else {
                    Some(self.vec[i].value.duplicate())
                }
            },
            None => None,
        }
    }

    /// Probes the entry at `idx` of the dense vector and removes it only if
    /// it is expired; then returns its key and value.
    pub fn evict_at(&mut self, idx: usize, now: u64) -> (r: Option<(Vec<u8>, RedisValue)>)
        requires
            old(self).wf(),
            idx < old(self).size(),
        ensures
            final(self).wf(),
            if expired(old(self)@[old(self).key_at(idx as int)], now) {
                &&& final(self)@ == old(self)@.remove(old(self).key_at(idx as int))
                &&& r matches Some((k, v)) && k@ == old(self).key_at(idx as int) && v@ == old(
                    self,
                )@[k@]
            } else {
                final(self)@ == old(self)@ && r is None
            },
    {
        let is_expired = match self.vec[idx].value.expiry {
            Some(t) => t <= now,
            None => false,
        };
        if is_expired {
            let key = clone_bytes(&self.vec[idx].key);
            let v = self.reorganize_map_vec(idx);
            Some((key, v))
        } else {
            None
        }
    }

    /// Active eviction: probes one entry drawn uniformly at random and
    /// removes it only if it is expired. A live entry is never removed.
    pub fn random_evict(&mut self, now: u64) -> (r: Option<(Vec<u8>, RedisValue)>)
        requires
            old(self).wf(),
        ensures
            final(self).wf(),
            match r {
                None => final(self)@ == old(self)@,
                Some((k, v)) => {
                    &&& old(self)@.contains_key(k@)
                    &&& expired(old(self)@[k@], now)
                    &&& v@ == old(self)@[k@]
                    &&& final(self)@ == old(self)@.remove(k@)
                },
            },
            old(self)@.dom().len() > 0 && all_expired(old(self)@, now) ==> r is Some,
    {
        let n = self.len();
        if n == 0 {
            return None;
        }
        let idx = random_index(n);
        assert(self@.contains_key(self.vec@[idx as int].key@));
        self.evict_at(idx, now)
    }
}

} // verus!
