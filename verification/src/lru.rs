//! A bounded least-recently-used cache of computed blocks.
//!
//! Recency is a tick stamped on every access; when the cache is full, an
//! insertion of a new key first drops the entry with the oldest stamp. The
//! capacity is small, so a linear scan is cheaper than a linked list.
use vstd::prelude::*;

verus! {

/// Cache key: the audio buffer, the hash of the parameters that determine a
/// block's content, and the block's aligned index.
#[derive(Clone, Copy, Debug, PartialEq, Eq, Structural, Hash)]
pub struct BlockKey {
    /// Audio buffer the block was computed from.
    pub audio: u64,
    /// Hash of the parameters that determine the block.
    pub params_hash: u64,
    /// Aligned index of the block.
    pub block_index: usize,
}

/// Columns per cached spectrogram block.
pub const TILE_COLS: usize = 512;

/// Spectrogram blocks held before the least recently used is evicted.
pub const CACHE_CAPACITY: usize = 64;

/// Decoded chunks of a streamed source held before the least recently used is
/// evicted.
pub const DECODED_CHUNK_CACHE_CAP: usize = 32;

/// A bounded map from keys to values that evicts the least recently used.
pub struct LruCache<V> {
    keys: Vec<BlockKey>,
    values: Vec<V>,
    stamps: Vec<u64>,
    capacity: usize,
    tick: u64,
}

/// The cache contents as a map: each key to its value and last-use stamp.
pub open spec fn contents_of<V>(keys: Seq<BlockKey>, values: Seq<V>, stamps: Seq<u64>) -> Map<
    BlockKey,
    (V, u64),
> {
    Map::new(
        |k: BlockKey| keys.contains(k),
        |k: BlockKey| (values[keys.index_of(k)], stamps[keys.index_of(k)]),
    )
}

/// In a duplicate-free key list, the position of the key at `i` is `i`.
proof fn lemma_index_of(keys: Seq<BlockKey>, i: int)
    requires
        keys.no_duplicates(),
        0 <= i < keys.len(),
    ensures
        keys.index_of(keys[i]) == i,
{
    assert(keys.contains(keys[i]));
    let j = keys.index_of(keys[i]);
    assert(0 <= j < keys.len() && keys[j] == keys[i]);
}

impl<V> LruCache<V> {
    /// Key, value and last-use stamp of every held entry.
    pub closed spec fn contents(&self) -> Map<BlockKey, (V, u64)> {
        contents_of(self.keys@, self.values@, self.stamps@)
    }

    /// The most entries the cache holds.
    pub closed spec fn capacity(&self) -> nat {
        self.capacity as nat
    }

    /// The stamp of the latest access.
    pub closed spec fn clock(&self) -> u64 {
        self.tick
    }

    /// Keys are held once, within capacity, each with its own stamp, none
    /// later than the clock.
    pub closed spec fn wf(&self) -> bool {
        &&& self.keys@.len() == self.values@.len()
        &&& self.keys@.len() == self.stamps@.len()
        &&& self.keys@.no_duplicates()
        &&& self.keys@.len() <= self.capacity
        &&& self.capacity > 0
        &&& forall|i: int| 0 <= i < self.stamps@.len() ==> self.stamps@[i] <= self.tick
        &&& forall|i: int, j: int|
            0 <= i < j < self.stamps@.len() ==> self.stamps@[i] != self.stamps@[j]
    }

    /// An empty cache holding at most `capacity` entries.
    pub fn new(capacity: usize) -> (c: LruCache<V>)
        requires
            capacity > 0,
        ensures
            c.wf(),
            c.capacity() == capacity,
            c.clock() == 0,
            c.contents() == Map::<BlockKey, (V, u64)>::empty(),
    {
        let c = LruCache {
            keys: Vec::new(),
            values: Vec::new(),
            stamps: Vec::new(),
            capacity,
            tick: 0,
        };
        assert(c.contents() =~= Map::<BlockKey, (V, u64)>::empty());
        c
    }

    /// Number of entries held.
    pub fn len(&self) -> (n: usize)
        requires
            self.wf(),
        ensures
            n == self.contents().len(),
            n <= self.capacity(),
    {
        proof {
            self.keys@.unique_seq_to_set();
            assert(self.contents().dom() =~= self.keys@.to_set());
        }
        self.keys.len()
    }

    fn find(&self, key: BlockKey) -> (r: Option<usize>)
        ensures
            match r {
                Some(i) => i < self.keys@.len() && self.keys@[i as int] == key,
                None => !self.keys@.contains(key),
            },
    {
        let mut i: usize = 0;
        while i < self.keys.len()
            invariant
                i <= self.keys@.len(),
                forall|j: int| 0 <= j < i ==> self.keys@[j] != key,
            decreases self.keys@.len() - i,
        {
            if self.keys[i] == key {
                return Some(i);
            }
            i += 1;
        }
        None
    }

    /// The value held for `key`, marked as the most recently used; `None` on
    /// a miss. Every call advances the clock.
    pub fn get(&mut self, key: BlockKey) -> (r: Option<&V>)
        requires
            old(self).wf(),
            old(self).clock() < u64::MAX,
        ensures
            final(self).wf(),
            final(self).clock() == old(self).clock() + 1,
            final(self).capacity() == old(self).capacity(),
            match r {
                Some(v) => {
                    &&& old(self).contents().contains_key(key)
                    &&& *v == old(self).contents()[key].0
                    &&& final(self).contents() == old(self).contents().insert(
                        key,
                        (old(self).contents()[key].0, final(self).clock()),
                    )
                },
                None => !old(self).contents().contains_key(key) && final(self).contents() == old(
                    self,
                ).contents(),
            },
    {
        self.tick = self.tick + 1;
        match self.find(key) {
            Some(i) => {
                let ghost before = self.stamps@;
                self.stamps.set(i, self.tick);
                proof {
                    lemma_index_of(self.keys@, i as int);
                    assert forall|k: BlockKey| #[trigger] self.keys@.contains(k) implies self.keys@.index_of(k)
                        == old(self).keys@.index_of(k) by {}
                    assert(self.contents() =~= old(self).contents().insert(
                        key,
                        (old(self).contents()[key].0, self.tick),
                    )) by {
                        assert forall|k: BlockKey| #[trigger] self.keys@.contains(k) && k != key implies self.keys@.index_of(k) != i by {
                            let j = self.keys@.index_of(k);
                            assert(0 <= j < self.keys@.len() && self.keys@[j] == k);
                        }
                    }
                }
                Some(&self.values[i])
            },
            None => {
                proof {
                    assert(self.contents() =~= old(self).contents());
                }
                None
            },
        }
    }

    /// Position of the entry with the oldest stamp; the cache is not empty.
    fn oldest(&self) -> (v: usize)
        requires
            self.wf(),
            self.keys@.len() > 0,
        ensures
            v < self.keys@.len(),
            forall|j: int| 0 <= j < self.stamps@.len() ==> self.stamps@[v as int] <= self.stamps@[j],
    {
        let mut best: usize = 0;
        let mut i: usize = 1;
        while i < self.stamps.len()
            invariant
                1 <= i <= self.stamps@.len(),
                self.stamps@.len() == self.keys@.len(),
                best < i,
                forall|j: int| 0 <= j < i ==> self.stamps@[best as int] <= self.stamps@[j],
            decreases self.stamps@.len() - i,
        {
            if self.stamps[i] < self.stamps[best] {
                best = i;
            }
            i += 1;
        }
        best
    }

    /// Holds `value` under `key` as the most recently used entry. A new key
    /// in a full cache first evicts the entry with the oldest stamp. Every
    /// call advances the clock.
    pub fn insert(&mut self, key: BlockKey, value: V)
        requires
            old(self).wf(),
            old(self).clock() < u64::MAX,
        ensures
            final(self).wf(),
            final(self).clock() == old(self).clock() + 1,
            final(self).capacity() == old(self).capacity(),
            old(self).contents().contains_key(key) || old(self).contents().len() < old(
                self,
            ).capacity() ==> final(self).contents() == old(self).contents().insert(
                key,
                (value, final(self).clock()),
            ),
            !old(self).contents().contains_key(key) && old(self).contents().len() >= old(
                self,
            ).capacity() ==> exists|victim: BlockKey|
                {
                    &&& old(self).contents().contains_key(victim)
                    &&& forall|k: BlockKey| #[trigger]
                        old(self).contents().contains_key(k) && k != victim ==> old(
                            self,
                        ).contents()[victim].1 < old(self).contents()[k].1
                    &&& final(self).contents() == old(self).contents().remove(victim).insert(
                        key,
                        (value, final(self).clock()),
                    )
                },
    {
        proof {
            self.keys@.unique_seq_to_set();
            assert(self.contents().dom() =~= self.keys@.to_set());
        }
        self.tick = self.tick + 1;
        let tick = self.tick;
        match self.find(key) {
            Some(i) => {
                self.values.set(i, value);
                self.stamps.set(i, tick);
                proof {
                    lemma_index_of(self.keys@, i as int);
                    assert(self.contents() =~= old(self).contents().insert(key, (value, tick))) by {
                        assert forall|k: BlockKey| #[trigger] self.keys@.contains(k) && k != key implies self.keys@.index_of(k) != i by {
                            let j = self.keys@.index_of(k);
                            assert(0 <= j < self.keys@.len() && self.keys@[j] == k);
                        }
                    }
                }
            },
            None => {
                if self.keys.len() >= self.capacity {
                    let v = self.oldest();
                    let ghost victim = self.keys@[v as int];
                    let ghost k0 = self.keys@;
                    let ghost v0 = self.values@;
                    let ghost s0 = self.stamps@;
                    self.keys.remove(v);
                    self.values.remove(v);
                    self.stamps.remove(v);
                    self.keys.push(key);
                    self.values.push(value);
                    self.stamps.push(tick);
                    proof {
                        lemma_index_of(k0, v as int);
                        assert(self.keys@ =~= k0.remove(v as int).push(key));
                        lemma_remove_push_no_dup(k0, v as int, key);
                        assert forall|k: BlockKey| #[trigger]
                            old(self).contents().contains_key(k) && k != victim implies old(
                            self,
                        ).contents()[victim].1 < old(self).contents()[k].1 by {
                            let j = k0.index_of(k);
                            assert(0 <= j < k0.len() && k0[j] == k);
                            assert(j != v);
                            assert(s0[v as int] != s0[j]);
                        }
                        lemma_remove_push_contents(k0, v0, s0, v as int, key, value, tick);
                        assert(self.contents() == old(self).contents().remove(victim).insert(
                            key,
                            (value, tick),
                        ));
                    }
                } else {
                    let ghost k0 = self.keys@;
                    let ghost v0 = self.values@;
                    let ghost s0 = self.stamps@;
                    self.keys.push(key);
                    self.values.push(value);
                    self.stamps.push(tick);
                    proof {
                        lemma_push_contents(k0, v0, s0, key, value, tick);
                    }
                }
            },
        }
    }
}

/// Appending a new key to a duplicate-free list keeps it duplicate-free.
proof fn lemma_remove_push_no_dup(keys: Seq<BlockKey>, v: int, key: BlockKey)
    requires
        keys.no_duplicates(),
        0 <= v < keys.len(),
        !keys.contains(key),
    ensures
        keys.remove(v).push(key).no_duplicates(),
{
    let r = keys.remove(v);
    let t = r.push(key);
    assert forall|a: int, b: int| 0 <= a < b < t.len() implies t[a] != t[b] by {
        if b == t.len() - 1 {
            if a < v {
                assert(t[a] == keys[a]);
            } else {
                assert(t[a] == keys[a + 1]);
            }
        } else {
            let ia = if a < v { a } else { a + 1 };
            let ib = if b < v { b } else { b + 1 };
            assert(t[a] == keys[ia] && t[b] == keys[ib]);
        }
    }
}

/// Pushing a new key extends the contents by that key.
proof fn lemma_push_contents<V>(
    keys: Seq<BlockKey>,
    values: Seq<V>,
    stamps: Seq<u64>,
    key: BlockKey,
    value: V,
    tick: u64,
)
    requires
        keys.no_duplicates(),
        keys.len() == values.len(),
        keys.len() == stamps.len(),
        !keys.contains(key),
    ensures
        contents_of(keys.push(key), values.push(value), stamps.push(tick)) == contents_of(
            keys,
            values,
            stamps,
        ).insert(key, (value, tick)),
{
    let k2 = keys.push(key);
    assert(k2[keys.len() as int] == key);
    assert forall|k: BlockKey| #[trigger] k2.contains(k) && k != key implies k2.index_of(k)
        == keys.index_of(k) && keys.contains(k) by {
        let j = k2.index_of(k);
        assert(0 <= j < k2.len() && k2[j] == k);
        assert(j < keys.len());
        assert(keys[j] == k);
        let i = keys.index_of(k);
        assert(0 <= i < keys.len() && keys[i] == k);
        assert(k2[i] == k);
    }
    assert forall|k: BlockKey| #[trigger] keys.contains(k) implies k2.contains(k) by {
        let i = keys.index_of(k);
        assert(0 <= i < keys.len() && keys[i] == k);
        assert(k2[i] == k);
    }
    assert(k2.contains(key));
    let j = k2.index_of(key);
    assert(0 <= j < k2.len() && k2[j] == key);
    assert(j == keys.len());
    assert(contents_of(k2, values.push(value), stamps.push(tick)) =~= contents_of(
        keys,
        values,
        stamps,
    ).insert(key, (value, tick)));
}

/// Dropping the entry at `v` and pushing a new key replaces that entry's key
/// by the new one in the contents.
proof fn lemma_remove_push_contents<V>(
    keys: Seq<BlockKey>,
    values: Seq<V>,
    stamps: Seq<u64>,
    v: int,
    key: BlockKey,
    value: V,
    tick: u64,
)
    requires
        keys.no_duplicates(),
        keys.len() == values.len(),
        keys.len() == stamps.len(),
        0 <= v < keys.len(),
        !keys.contains(key),
    ensures
        contents_of(
            keys.remove(v).push(key),
            values.remove(v).push(value),
            stamps.remove(v).push(tick),
        ) == contents_of(keys, values, stamps).remove(keys[v]).insert(key, (value, tick)),
{
    let r = keys.remove(v);
    let rv = values.remove(v);
    let rs = stamps.remove(v);
    assert forall|a: int, b: int| 0 <= a < b < r.len() implies r[a] != r[b] by {
        let ia = if a < v { a } else { a + 1 };
        let ib = if b < v { b } else { b + 1 };
        assert(r[a] == keys[ia] && r[b] == keys[ib]);
    }
    assert(!r.contains(key)) by {
        if r.contains(key) {
            let j = r.index_of(key);
            assert(0 <= j < r.len() && r[j] == key);
            let ij = if j < v { j } else { j + 1 };
            assert(keys[ij] == key);
        }
    }
    lemma_push_contents(r, rv, rs, key, value, tick);
    let victim = keys[v];
    assert(contents_of(r, rv, rs) =~= contents_of(keys, values, stamps).remove(victim)) by {
        assert forall|k: BlockKey| #[trigger] r.contains(k) implies keys.contains(k) && k != victim
            && rv[r.index_of(k)] == values[keys.index_of(k)] && rs[r.index_of(k)]
            == stamps[keys.index_of(k)] by {
            let j = r.index_of(k);
            assert(0 <= j < r.len() && r[j] == k);
            let ij = if j < v { j } else { j + 1 };
            assert(keys[ij] == k);
            lemma_index_of(keys, ij);
            assert(ij != v);
        }
        assert forall|k: BlockKey| #[trigger] keys.contains(k) && k != victim implies r.contains(k) by {
            let i = keys.index_of(k);
            assert(0 <= i < keys.len() && keys[i] == k);
            assert(i != v);
            let ir = if i < v { i } else { i - 1 };
            assert(r[ir] == k);
        }
    }
}

} // verus!
