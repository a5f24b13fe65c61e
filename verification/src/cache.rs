//! Capacity-bounded store for fetched source bytes, keyed by a stable
//! 64-bit hash of the source URL, with least-recently-used eviction.
//!
//! The cache itself is purely in-memory and does no I/O: a caller looks
//! a key up with `get`, fetches outside the lock on a miss, and records
//! the fetched bytes with `put`.

use vstd::prelude::*;

verus! {

/// FNV-1a offset basis.
pub const FNV_BASIS: u64 = 0xcbf29ce484222325;

/// FNV-1a prime.
pub const FNV_PRIME: u64 = 0x100000001b3;

/// One FNV-1a round: xor the byte in, multiply by the prime mod 2^64.
pub open spec fn fnv1a_step(h: u64, b: u8) -> u64 {
    ((((h ^ (b as u64)) as int) * (FNV_PRIME as int)) % 0x10000000000000000) as u64
}

/// FNV-1a folded over the bytes still to be hashed, starting from `h`.
pub open spec fn fnv1a_from(h: u64, s: Seq<u8>) -> u64
    decreases s.len(),
{
    if s.len() == 0 {
        h
    } else {
        fnv1a_from(fnv1a_step(h, s[0]), s.drop_first())
    }
}

/// The stable 64-bit FNV-1a hash of a byte string.
pub open spec fn fnv1a(s: Seq<u8>) -> u64 {
    fnv1a_from(FNV_BASIS, s)
}

/// The stable hash under which a source URL's bytes are cached.
pub fn hash_key(data: &Vec<u8>) -> (r: u64)
    ensures
        r == fnv1a(data@),
{
    let n = data.len();
    let mut h: u64 = FNV_BASIS;
    let mut i: usize = 0;
    proof {
        assert(data@.skip(0) =~= data@);
    }
    while i < n
        invariant
            0 <= i <= n,
            n == data@.len(),
            fnv1a_from(h, data@.skip(i as int)) == fnv1a(data@),
        decreases n - i,
    {
        let ghost pre = data@.skip(i as int);
        let x: u64 = h ^ (data[i] as u64);
        let prod: u128 = (x as u128) * (FNV_PRIME as u128);
        let nh: u64 = (prod % 0x10000000000000000) as u64;
        proof {
            assert(pre[0] == data@[i as int]);
            assert(pre.drop_first() =~= data@.skip(i as int + 1));
            assert(nh == fnv1a_step(h, data@[i as int]));
        }
        h = nh;
        i = i + 1;
    }
    proof {
        assert(data@.skip(n as int) =~= Seq::<u8>::empty());
    }
    h
}

/// The keys of an association list of cache entries.
pub open spec fn keys_of(v: Seq<(u64, Seq<u8>)>) -> Seq<u64> {
    v.map_values(|e: (u64, Seq<u8>)| e.0)
}

/// Bounded key-to-bytes store; the entry list is kept ordered from most
/// to least recently used, and the keys are distinct.
pub struct SourceCache {
    pub cap: usize,
    pub entries: Vec<(u64, Vec<u8>)>,
}

impl SourceCache {
    /// The entries, most recently used first, as mathematical values.
    pub open spec fn view_entries(self) -> Seq<(u64, Seq<u8>)> {
        self.entries@.map_values(|e: (u64, Vec<u8>)| (e.0, e.1@))
    }

    pub open spec fn capacity_spec(self) -> int {
        self.cap as int
    }

    pub open spec fn keys(self) -> Seq<u64> {
        keys_of(self.view_entries())
    }

    pub open spec fn wf(self) -> bool {
        &&& self.cap >= 1
        &&& self.entries@.len() <= self.cap
        &&& forall|i: int, j: int| 0 <= i < j < self.keys().len() ==> self.keys()[i]
            != self.keys()[j]
    }

    /// An empty cache that will hold at most `cap` entries.
    pub fn new(cap: usize) -> (r: SourceCache)
        requires
            cap >= 1,
        ensures
            r.wf(),
            r.capacity_spec() == cap,
            r.view_entries() == Seq::<(u64, Seq<u8>)>::empty(),
    {
        let r = SourceCache { cap, entries: Vec::new() };
        proof {
            assert(r.view_entries() =~= Seq::<(u64, Seq<u8>)>::empty());
        }
        r
    }

    pub fn len(&self) -> (r: usize)
        ensures
            r == self.view_entries().len(),
    {
        self.entries.len()
    }

    pub fn capacity(&self) -> (r: usize)
        ensures
            r == self.capacity_spec(),
    {
        self.cap
    }

    /// Whether `key` is present, without touching recency.
    pub fn contains(&self, key: u64) -> (r: bool)
        ensures
            r == self.keys().contains(key),
    {
        let n = self.entries.len();
        let mut i: usize = 0;
        while i < n
            invariant
                0 <= i <= n,
                n == self.entries@.len(),
                forall|j: int| 0 <= j < i ==> self.keys()[j] != key,
            decreases n - i,
        {
            if self.entries[i].0 == key {
                proof {
                    assert(self.keys()[i as int] == key);
                }
                return true;
            }
            i = i + 1;
        }
        proof {
            assert forall|j: int| 0 <= j < self.keys().len() implies self.keys()[j] != key by {}
        }
        false
    }

    /// Looks `key` up. On a hit the entry's bytes are returned and the
    /// entry becomes the most recently used; a miss changes nothing.
    /// A hit is returned exactly when the key is present, so a caller
    /// that only fetches on `None` never fetches a cached source.
    pub fn get(&mut self, key: u64) -> (r: Option<Vec<u8>>)
        requires
            old(self).wf(),
        ensures
            final(self).wf(),
            final(self).capacity_spec() == old(self).capacity_spec(),
            r is Some <==> keys_of(old(self).view_entries()).contains(key),
            r matches Some(v) ==> exists|i: int|
                {
                    &&& 0 <= i < old(self).view_entries().len()
                    &&& old(self).view_entries()[i].0 == key
                    &&& v@ == old(self).view_entries()[i].1
                    &&& final(self).view_entries() == seq![old(self).view_entries()[i]]
                        + old(self).view_entries().take(i) + old(self).view_entries().skip(i + 1)
                },
            r is None ==> *final(self) == *old(self),
    {
        let n = self.entries.len();
        let i = self.find_key(key);
        if i < n {
            let ghost pre = self.view_entries();
            let entry = self.entries.remove(i);
            let value = copy_bytes(&entry.1);
            self.entries.insert(0, entry);
            proof {
                assert(pre[i as int].0 == key);
                assert(self.view_entries() =~= seq![pre[i as int]] + pre.take(i as int) + pre.skip(
                    i as int + 1));
                lemma_move_to_front_wf(pre, i as int);
                assert(keys_of(pre).contains(key)) by {
                    assert(keys_of(pre)[i as int] == key);
                }
            }
            Some(value)
        } else {
            proof {
                if keys_of(self.view_entries()).contains(key) {
                    let j = choose|j: int| 0 <= j < keys_of(self.view_entries()).len() && keys_of(
                        self.view_entries())[j] == key;
                    assert(self.keys()[j] != key);
                }
            }
            None
        }
    }

    /// The position of `key` in recency order, or the entry count when
    /// the key is absent.
    fn find_key(&self, key: u64) -> (r: usize)
        ensures
            0 <= r <= self.view_entries().len(),
            r < self.view_entries().len() ==> self.keys()[r as int] == key,
            forall|j: int| 0 <= j < r ==> self.keys()[j] != key,
    {
        let n = self.entries.len();
        let mut i: usize = 0;
        while i < n
            invariant
                0 <= i <= n,
                n == self.entries@.len(),
                forall|j: int| 0 <= j < i ==> self.keys()[j] != key,
            decreases n - i,
        {
            if self.entries[i].0 == key {
                proof {
                    assert(self.keys()[i as int] == key);
                }
                return i;
            }
            i = i + 1;
        }
        n
    }

    /// Records bytes for `key` as the most recently used entry. An
    /// existing entry for the key is replaced; otherwise, if the cache
    /// is full, the least recently used entry is evicted.
    pub fn put(&mut self, key: u64, value: Vec<u8>)
        requires
            old(self).wf(),
        ensures
            final(self).wf(),
            final(self).capacity_spec() == old(self).capacity_spec(),
            final(self).view_entries() == put_view(old(self).view_entries(),
                old(self).capacity_spec(), key, value@),
    {
        let ghost pre = self.view_entries();
        let n = self.entries.len();
        let i = self.find_key(key);
        if i < n {
            proof {
                assert(self.keys()[i as int] == key);
                assert(keys_of(pre).contains(key)) by {
                    assert(keys_of(pre)[i as int] == key);
                }
            }
            let _old_entry = self.entries.remove(i);
            self.entries.insert(0, (key, value));
            proof {
                lemma_key_index_unique(pre, i as int, key);
                assert(self.view_entries() =~= seq![(key, value@)] + pre.take(i as int) + pre.skip(
                    i as int + 1));
                lemma_replace_front_wf(pre, i as int, key, value@, self.cap as int);
            }
        } else {
            proof {
                if keys_of(pre).contains(key) {
                    let j = choose|j: int| 0 <= j < keys_of(pre).len() && keys_of(pre)[j] == key;
                    assert(self.keys()[j] != key);
                }
            }
            if self.entries.len() == self.cap {
                let _evicted = self.entries.pop();
            }
            self.entries.insert(0, (key, value));
            proof {
                assert forall|a: int, b: int| 0 <= a < b < pre.len() implies keys_of(pre)[a]
                    != keys_of(pre)[b] by {
                    assert(old(self).keys()[a] != old(self).keys()[b]);
                }
                if pre.len() == self.cap {
                    assert(self.view_entries() =~= seq![(key, value@)] + pre.drop_last());
                    let dl = pre.drop_last();
                    assert(forall|j: int| 0 <= j < dl.len() ==> #[trigger] keys_of(dl)[j]
                        == keys_of(pre)[j]);
                    assert forall|a: int, b: int| 0 <= a < b < dl.len() implies keys_of(dl)[a]
                        != keys_of(dl)[b] by {
                        assert(keys_of(dl)[a] == keys_of(pre)[a]);
                        assert(keys_of(dl)[b] == keys_of(pre)[b]);
                    }
                    if keys_of(dl).contains(key) {
                        let j = choose|j: int| 0 <= j < keys_of(dl).len() && keys_of(dl)[j] == key;
                        assert(keys_of(pre)[j] == key);
                        assert(keys_of(pre).contains(key));
                    }
                    lemma_insert_fresh_wf(dl, key, value@, self.cap as int);
                } else {
                    assert(self.view_entries() =~= seq![(key, value@)] + pre);
                    lemma_insert_fresh_wf(pre, key, value@, self.cap as int);
                }
            }
        }
    }
}

/// What `put` leaves in the cache: the new entry in front; an older
/// entry for the same key is dropped, and with a full cache the least
/// recently used entry is evicted.
pub open spec fn put_view(pre: Seq<(u64, Seq<u8>)>, cap: int, key: u64, value: Seq<u8>) -> Seq<
    (u64, Seq<u8>),
> {
    if keys_of(pre).contains(key) {
        let i = choose|i: int| 0 <= i < pre.len() && keys_of(pre)[i] == key;
        seq![(key, value)] + pre.take(i) + pre.skip(i + 1)
    } else if pre.len() == cap {
        seq![(key, value)] + pre.drop_last()
    } else {
        seq![(key, value)] + pre
    }
}

fn copy_bytes(v: &Vec<u8>) -> (r: Vec<u8>)
    ensures
        r@ == v@,
{
    let n = v.len();
    let mut out: Vec<u8> = Vec::new();
    let mut i: usize = 0;
    while i < n
        invariant
            0 <= i <= n,
            n == v@.len(),
            out@ == v@.take(i as int),
        decreases n - i,
    {
        let b = v[i];
        proof {
            assert(v@.take(i as int + 1) =~= v@.take(i as int).push(b));
        }
        out.push(b);
        i = i + 1;
    }
    proof {
        assert(v@.take(n as int) =~= v@);
    }
    out
}

proof fn lemma_key_index_unique(pre: Seq<(u64, Seq<u8>)>, i: int, key: u64)
    requires
        0 <= i < pre.len(),
        keys_of(pre)[i] == key,
        forall|a: int, b: int| 0 <= a < b < pre.len() ==> keys_of(pre)[a] != keys_of(pre)[b],
        forall|j: int| 0 <= j < i ==> keys_of(pre)[j] != key,
    ensures
        forall|j: int| 0 <= j < pre.len() && j != i ==> keys_of(pre)[j] != key,
        (choose|j: int| 0 <= j < pre.len() && keys_of(pre)[j] == key) == i,
{
    assert forall|j: int| 0 <= j < pre.len() && j != i implies keys_of(pre)[j] != key by {
        if j < i {
        } else {
            assert(keys_of(pre)[i] != keys_of(pre)[j]);
        }
    }
}

proof fn lemma_move_to_front_wf(pre: Seq<(u64, Seq<u8>)>, i: int)
    requires
        0 <= i < pre.len(),
        forall|a: int, b: int| 0 <= a < b < pre.len() ==> keys_of(pre)[a] != keys_of(pre)[b],
    ensures
        forall|a: int, b: int| 0 <= a < b < (seq![pre[i]] + pre.take(i) + pre.skip(i + 1)).len()
            ==> #[trigger] keys_of(seq![pre[i]] + pre.take(i) + pre.skip(i + 1))[a] != #[trigger]
            keys_of(seq![pre[i]] + pre.take(i) + pre.skip(i + 1))[b],
{
    let post = seq![pre[i]] + pre.take(i) + pre.skip(i + 1);
    assert forall|a: int, b: int| 0 <= a < b < keys_of(post).len() implies keys_of(post)[a]
        != keys_of(post)[b] by {
        let map_a = if a == 0 {
            i
        } else if a <= i {
            a - 1
        } else {
            a
        };
        let map_b = if b == 0 {
            i
        } else if b <= i {
            b - 1
        } else {
            b
        };
        assert(keys_of(post)[a] == keys_of(pre)[map_a]);
        assert(keys_of(post)[b] == keys_of(pre)[map_b]);
    }
}

proof fn lemma_replace_front_wf(pre: Seq<(u64, Seq<u8>)>, i: int, key: u64, value: Seq<u8>,
    cap: int)
    requires
        0 <= i < pre.len(),
        pre.len() <= cap,
        keys_of(pre)[i] == key,
        forall|a: int, b: int| 0 <= a < b < pre.len() ==> keys_of(pre)[a] != keys_of(pre)[b],
    ensures
        forall|a: int, b: int| 0 <= a < b < (seq![(key, value)] + pre.take(i) + pre.skip(i
            + 1)).len() ==> #[trigger] keys_of(seq![(key, value)] + pre.take(i) + pre.skip(i
            + 1))[a] != #[trigger] keys_of(seq![(key, value)] + pre.take(i) + pre.skip(i + 1))[b],
        (seq![(key, value)] + pre.take(i) + pre.skip(i + 1)).len() <= cap,
{
    let post = seq![(key, value)] + pre.take(i) + pre.skip(i + 1);
    assert forall|a: int, b: int| 0 <= a < b < keys_of(post).len() implies keys_of(post)[a]
        != keys_of(post)[b] by {
        let map_a = if a == 0 {
            i
        } else if a <= i {
            a - 1
        } else {
            a
        };
        let map_b = if b == 0 {
            i
        } else if b <= i {
            b - 1
        } else {
            b
        };
        assert(keys_of(post)[a] == keys_of(pre)[map_a]);
        assert(keys_of(post)[b] == keys_of(pre)[map_b]);
    }
}

proof fn lemma_insert_fresh_wf(pre: Seq<(u64, Seq<u8>)>, key: u64, value: Seq<u8>, cap: int)
    requires
        pre.len() < cap,
        forall|a: int, b: int| 0 <= a < b < pre.len() ==> keys_of(pre)[a] != keys_of(pre)[b],
        !keys_of(pre).contains(key),
    ensures
        forall|a: int, b: int| 0 <= a < b < (seq![(key, value)] + pre).len() ==> #[trigger]
            keys_of(seq![(key, value)] + pre)[a] != #[trigger] keys_of(seq![(key, value)]
            + pre)[b],
{
    let post = seq![(key, value)] + pre;
    assert forall|a: int, b: int| 0 <= a < b < keys_of(post).len() implies keys_of(post)[a]
        != keys_of(post)[b] by {
        if a == 0 {
            assert(keys_of(post)[b] == keys_of(pre)[b - 1]);
            assert(keys_of(pre).contains(keys_of(pre)[b - 1])) by {
            }
        } else {
            assert(keys_of(post)[a] == keys_of(pre)[a - 1]);
            assert(keys_of(post)[b] == keys_of(pre)[b - 1]);
        }
    }
}

/// The cache contents after recording a sequence of keys and values
/// in order, starting from empty.
pub open spec fn filled_view(keys: Seq<u64>, vals: Seq<Seq<u8>>, cap: int) -> Seq<(u64, Seq<u8>)>
    decreases keys.len(),
{
    if keys.len() == 0 {
        Seq::<(u64, Seq<u8>)>::empty()
    } else {
        put_view(filled_view(keys.drop_last(), vals.drop_last(), cap), cap, keys.last(),
            vals.last())
    }
}

/// Recording distinct keys within capacity keeps them all, most
/// recent first.
proof fn lemma_filled_reversed(keys: Seq<u64>, vals: Seq<Seq<u8>>, cap: int)
    requires
        keys.len() == vals.len(),
        keys.len() <= cap,
        forall|a: int, b: int| 0 <= a < b < keys.len() ==> keys[a] != keys[b],
    ensures
        filled_view(keys, vals, cap).len() == keys.len(),
        forall|i: int| 0 <= i < keys.len() ==> #[trigger] keys_of(filled_view(keys, vals, cap))[i]
            == keys[keys.len() - 1 - i],
    decreases keys.len(),
{
    if keys.len() == 0 {
    } else {
        let n = keys.len() as int;
        let front = keys.drop_last();
        let fv = vals.drop_last();
        lemma_filled_reversed(front, fv, cap);
        let base = filled_view(front, fv, cap);
        assert(!keys_of(base).contains(keys.last())) by {
            if keys_of(base).contains(keys.last()) {
                let j = choose|j: int| 0 <= j < keys_of(base).len() && keys_of(base)[j]
                    == keys.last();
                assert(keys_of(base)[j] == front[n - 2 - j]);
                assert(keys[n - 2 - j] != keys[n - 1]);
            }
        }
        assert(filled_view(keys, vals, cap) == seq![(keys.last(), vals.last())] + base);
        assert forall|i: int| 0 <= i < n implies #[trigger] keys_of(filled_view(keys, vals,
            cap))[i] == keys[n - 1 - i] by {
            if i > 0 {
                assert(keys_of(filled_view(keys, vals, cap))[i] == keys_of(base)[i - 1]);
                assert(keys_of(base)[i - 1] == front[n - 2 - (i - 1)]);
            }
        }
    }
}

/// Recording capacity-plus-one distinct keys into an empty cache
/// leaves exactly the least recently accessed key — the first one
/// recorded — absent; every other recorded key is present.
pub proof fn lemma_fill_capacity_plus_one(keys: Seq<u64>, vals: Seq<Seq<u8>>, cap: int,
    probe: u64)
    requires
        cap >= 1,
        keys.len() == cap + 1,
        vals.len() == keys.len(),
        forall|a: int, b: int| 0 <= a < b < keys.len() ==> keys[a] != keys[b],
    ensures
        keys_of(filled_view(keys, vals, cap)).contains(probe) <==> (keys.contains(probe) && probe
            != keys[0]),
{
    let n = keys.len() as int;
    let front = keys.drop_last();
    let fv = vals.drop_last();
    lemma_filled_reversed(front, fv, cap);
    let base = filled_view(front, fv, cap);
    assert(base.len() == cap);
    assert forall|a: int, b: int| 0 <= a < b < base.len() implies keys_of(base)[a] != keys_of(
        base)[b] by {
        assert(keys_of(base)[a] == front[cap - 1 - a]);
        assert(keys_of(base)[b] == front[cap - 1 - b]);
    }
    assert(!keys_of(base).contains(keys.last())) by {
        if keys_of(base).contains(keys.last()) {
            let j = choose|j: int| 0 <= j < keys_of(base).len() && keys_of(base)[j]
                == keys.last();
            assert(keys_of(base)[j] == front[cap - 1 - j]);
            assert(keys[cap - 1 - j] != keys[n - 1]);
        }
    }
    lemma_eviction(base, cap, keys.last(), vals.last(), probe);
    assert(base.last().0 == keys_of(base)[cap - 1]);
    assert(keys_of(base)[cap - 1] == front[0]);
    assert(filled_view(keys, vals, cap) == put_view(base, cap, keys.last(), vals.last()));
    // The characterization over the base translates to one over the
    // recorded keys.
    if keys.contains(probe) && probe != keys[0] {
        let j = choose|j: int| 0 <= j < keys.len() && keys[j] == probe;
        if j < n - 1 {
            assert(keys_of(base)[cap - 1 - j] == front[j]);
            assert(keys_of(base).contains(probe)) by {
                assert(keys_of(base)[cap - 1 - j] == probe);
            }
        }
        assert(j != 0);
    }
    if keys_of(base).contains(probe) {
        let j = choose|j: int| 0 <= j < keys_of(base).len() && keys_of(base)[j] == probe;
        assert(keys_of(base)[j] == front[cap - 1 - j]);
        assert(keys.contains(probe)) by {
            assert(keys[cap - 1 - j] == probe);
        }
    }
    if probe == keys.last() {
        assert(keys.contains(probe)) by {
            assert(keys[n - 1] == probe);
        }
        assert(keys[0] != keys[n - 1]);
    }
}

/// Filling a full cache with one more distinct key evicts exactly the
/// least recently used entry: afterwards a key is present exactly when
/// it is the new key or was present and was not the last in recency
/// order.
pub proof fn lemma_eviction(pre: Seq<(u64, Seq<u8>)>, cap: int, key: u64, value: Seq<u8>,
    probe: u64)
    requires
        pre.len() == cap,
        cap >= 1,
        !keys_of(pre).contains(key),
        forall|a: int, b: int| 0 <= a < b < pre.len() ==> keys_of(pre)[a] != keys_of(pre)[b],
    ensures
        keys_of(put_view(pre, cap, key, value)).contains(probe) <==> (probe == key || (keys_of(
            pre).contains(probe) && probe != pre.last().0)),
{
    let post = put_view(pre, cap, key, value);
    assert(post =~= seq![(key, value)] + pre.drop_last());
    let pk = keys_of(post);
    assert(pk[0] == key);
    if probe == key {
        assert(pk.contains(probe)) by {
            assert(pk[0] == probe);
        }
    } else {
        if keys_of(pre).contains(probe) && probe != pre.last().0 {
            let j = choose|j: int| 0 <= j < keys_of(pre).len() && keys_of(pre)[j] == probe;
            assert(j < pre.len() - 1) by {
                assert(keys_of(pre)[pre.len() - 1] == pre.last().0);
            }
            assert(pk[j + 1] == keys_of(pre)[j]);
            assert(pk.contains(probe)) by {
                assert(pk[j + 1] == probe);
            }
        }
        if pk.contains(probe) {
            let j = choose|j: int| 0 <= j < pk.len() && pk[j] == probe;
            assert(j >= 1);
            assert(keys_of(pre)[j - 1] == probe);
            assert(keys_of(pre).contains(probe)) by {
                assert(keys_of(pre)[j - 1] == probe);
            }
            assert(probe != pre.last().0) by {
                if probe == pre.last().0 {
                    assert(keys_of(pre)[j - 1] == keys_of(pre)[pre.len() - 1]);
                    assert(j - 1 < pre.len() - 1);
                }
            }
        }
    }
}

} // verus!
