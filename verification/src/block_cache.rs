use vstd::prelude::*;

verus! {

/// Frames of media decoded at a time.
pub const BLOCK_FRAMES: u64 = 65_536;

/// How many bytes of decoded blocks stay in memory by default.
pub const RAM_CACHE_BYTES: usize = 16777216;

/// A block of decoded media: which media, and which run of
/// `BLOCK_FRAMES` frames of it.
#[derive(Debug, Clone, Copy, PartialEq, Eq, Hash, Structural)]
pub struct BlockKey {
    pub media_id: u64,
    pub block_index: u64,
}

/// The block that holds `frame`, and where in it the frame is.
pub fn block_position(frame: u64) -> (r: (u64, usize))
    ensures
        r.0 == frame / BLOCK_FRAMES,
        r.1 == frame % BLOCK_FRAMES,
{
    (frame / BLOCK_FRAMES, (frame % BLOCK_FRAMES) as usize)
}

/// A block held in memory, with the bytes it takes.
pub struct CacheEntry<B> {
    pub key: BlockKey,
    pub block: B,
    pub bytes: usize,
}

/// The bytes the entries of `s` take together.
pub open spec fn bytes_of<B>(s: Seq<CacheEntry<B>>) -> int
    decreases s.len(),
{
    if s.len() == 0 {
        0
    } else {
        s[0].bytes + bytes_of(s.drop_first())
    }
}

/// The index of the entry for `key` in `s`, or `s.len()`.
pub open spec fn index_of_key<B>(s: Seq<CacheEntry<B>>, key: BlockKey) -> int
    decreases s.len(),
{
    if s.len() == 0 {
        0
    } else if s[0].key == key {
        0
    } else {
        index_of_key(s.drop_first(), key) + 1
    }
}

/// `s` without its entry for `key`, if it has one.
pub open spec fn without_block<B>(s: Seq<CacheEntry<B>>, key: BlockKey) -> Seq<CacheEntry<B>> {
    let i = index_of_key(s, key);
    if i < s.len() {
        s.remove(i)
    } else {
        s
    }
}

/// No key has two entries.
pub open spec fn keys_unique<B>(s: Seq<CacheEntry<B>>) -> bool {
    forall|i: int, j: int| 0 <= i < j < s.len() ==> (#[trigger] s[i]).key != (#[trigger] s[j]).key
}

/// How many of the least recently used entries of `s` must leave for
/// `incoming` more bytes to fit within `limit`: the first ones, until the
/// rest fit or none is left.
pub open spec fn evict_count<B>(s: Seq<CacheEntry<B>>, incoming: int, limit: int) -> nat
    decreases s.len(),
{
    if s.len() == 0 || bytes_of(s) + incoming <= limit {
        0
    } else {
        1 + evict_count(s.drop_first(), incoming, limit)
    }
}

/// Decoded blocks kept in memory within a byte budget, least recently used
/// first; the blocks pushed out go back to the caller, which keeps them
/// elsewhere.
pub struct BlockCache<B> {
    entries: Vec<CacheEntry<B>>,
    ram_bytes: usize,
    ram_limit: usize,
}

proof fn lemma_bytes_nonneg<B>(s: Seq<CacheEntry<B>>)
    ensures
        bytes_of(s) >= 0,
    decreases s.len(),
{
    if s.len() > 0 {
        lemma_bytes_nonneg(s.drop_first());
    }
}

proof fn lemma_bytes_remove<B>(s: Seq<CacheEntry<B>>, i: int)
    requires
        0 <= i < s.len(),
    ensures
        bytes_of(s) == bytes_of(s.remove(i)) + s[i].bytes,
    decreases s.len(),
{
    if i > 0 {
        lemma_bytes_remove(s.drop_first(), i - 1);
        assert(s.remove(i).drop_first() =~= s.drop_first().remove(i - 1));
        assert(s.remove(i)[0] == s[0]);
    } else {
        assert(s.remove(0) =~= s.drop_first());
    }
}

proof fn lemma_bytes_push<B>(s: Seq<CacheEntry<B>>, e: CacheEntry<B>)
    ensures
        bytes_of(s.push(e)) == bytes_of(s) + e.bytes,
    decreases s.len(),
{
    if s.len() > 0 {
        lemma_bytes_push(s.drop_first(), e);
        assert(s.push(e).drop_first() =~= s.drop_first().push(e));
        assert(s.push(e)[0] == s[0]);
        assert(bytes_of(s.push(e)) == s[0].bytes + bytes_of(s.drop_first().push(e)));
    } else {
        assert(s.push(e).drop_first() =~= Seq::<CacheEntry<B>>::empty());
        assert(s.push(e)[0] == e);
        assert(bytes_of(s.push(e).drop_first()) == 0);
        assert(bytes_of(s.push(e)) == e.bytes + bytes_of(s.push(e).drop_first()));
    }
}

proof fn lemma_index_range<B>(s: Seq<CacheEntry<B>>, key: BlockKey)
    ensures
        0 <= index_of_key(s, key) <= s.len(),
    decreases s.len(),
{
    if s.len() > 0 {
        lemma_index_range(s.drop_first(), key);
    }
}

proof fn lemma_index_of_key<B>(s: Seq<CacheEntry<B>>, key: BlockKey, i: int)
    requires
        0 <= i <= s.len(),
        forall|k: int| 0 <= k < i ==> (#[trigger] s[k]).key != key,
        i < s.len() ==> s[i].key == key,
    ensures
        index_of_key(s, key) == i,
    decreases s.len(),
{
    if s.len() > 0 && i > 0 {
        let t = s.drop_first();
        assert forall|k: int| 0 <= k < i - 1 implies (#[trigger] t[k]).key != key by {
            assert(t[k] == s[k + 1]);
        }
        if i < s.len() {
            assert(t[i - 1] == s[i]);
        }
        assert(s[0].key != key);
        lemma_index_of_key(t, key, i - 1);
    }
}

proof fn lemma_unique_remove<B>(s: Seq<CacheEntry<B>>, i: int)
    requires
        keys_unique(s),
        0 <= i < s.len(),
    ensures
        keys_unique(s.remove(i)),
        forall|j: int| 0 <= j < s.remove(i).len() ==> (#[trigger] s.remove(i)[j]).key != s[i].key,
{
    let r = s.remove(i);
    assert forall|a: int, b: int| 0 <= a < b < r.len() implies (#[trigger] r[a]).key != (#[trigger] r[b]).key by {
        let sa = if a < i { a } else { a + 1 };
        let sb = if b < i { b } else { b + 1 };
        assert(r[a] == s[sa] && r[b] == s[sb]);
    }
    assert forall|j: int| 0 <= j < r.len() implies (#[trigger] r[j]).key != s[i].key by {
        let sj = if j < i { j } else { j + 1 };
        assert(r[j] == s[sj]);
    }
}

impl<B> BlockCache<B> {
    /// The blocks held, least recently used first.
    pub closed spec fn entries_spec(&self) -> Seq<CacheEntry<B>> {
        self.entries@
    }

    /// The byte budget.
    pub closed spec fn limit(&self) -> usize {
        self.ram_limit
    }

    pub closed spec fn wf(&self) -> bool {
        &&& keys_unique(self.entries@)
        &&& self.ram_bytes == bytes_of(self.entries@)
        &&& self.ram_limit >= 1
    }

    /// An empty cache with a budget of `ram_limit` bytes (at least one).
    pub fn with_cache_bytes(ram_limit: usize) -> (c: Self)
        ensures
            c.wf(),
            c.entries_spec().len() == 0,
            c.limit() == if ram_limit >= 1 {
                ram_limit
            } else {
                1
            },
    {
        let limit = if ram_limit >= 1 {
            ram_limit
        } else {
            1
        };
        BlockCache { entries: Vec::new(), ram_bytes: 0, ram_limit: limit }
    }

    /// An empty cache with the default budget.
    pub fn in_memory() -> (c: Self)
        ensures
            c.wf(),
            c.entries_spec().len() == 0,
            c.limit() == RAM_CACHE_BYTES,
    {
        Self::with_cache_bytes(RAM_CACHE_BYTES)
    }

    /// The bytes the held blocks take.
    pub fn ram_bytes(&self) -> (n: usize)
        requires
            self.wf(),
        ensures
            n == bytes_of(self.entries_spec()),
    {
        self.ram_bytes
    }

    /// The number of blocks held.
    pub fn len(&self) -> (n: usize)
        ensures
            n == self.entries_spec().len(),
    {
        self.entries.len()
    }

    /// Where the entry for `key` is, if there is one.
    fn find(&self, key: BlockKey) -> (r: Option<usize>)
        ensures
            index_of_key(self.entries@, key) < self.entries@.len() ==> r == Some(
                index_of_key(self.entries@, key) as usize,
            ),
            index_of_key(self.entries@, key) >= self.entries@.len() ==> r is None,
            r matches Some(i) ==> i < self.entries@.len() && self.entries@[i as int].key == key && i
                == index_of_key(self.entries@, key),
    {
        proof {
            lemma_index_range(self.entries@, key);
        }
        let mut i: usize = 0;
        while i < self.entries.len() && self.entries[i].key != key
            invariant
                i <= self.entries@.len(),
                forall|k: int| 0 <= k < i ==> (#[trigger] self.entries@[k]).key != key,
            decreases self.entries@.len() - i,
        {
            i += 1;
        }
        proof {
            lemma_index_of_key(self.entries@, key, i as int);
        }
        if i < self.entries.len() {
            Some(i)
        } else {
            None
        }
    }

    /// The block held for `key`.
    pub fn block(&self, key: BlockKey) -> (r: Option<&B>)
        ensures
            index_of_key(self.entries_spec(), key) < self.entries_spec().len() ==> r == Some(
                &self.entries_spec()[index_of_key(self.entries_spec(), key)].block,
            ),
            index_of_key(self.entries_spec(), key) >= self.entries_spec().len() ==> r is None,
    {
        match self.find(key) {
            Some(i) => Some(&self.entries[i].block),
            None => None,
        }
    }

    /// Marks the block for `key` as the most recently used; `false`, with
    /// nothing changed, when it is not held.
    pub fn touch(&mut self, key: BlockKey) -> (held: bool)
        requires
            old(self).wf(),
        ensures
            final(self).wf(),
            final(self).limit() == old(self).limit(),
            held == (index_of_key(old(self).entries_spec(), key) < old(self).entries_spec().len()),
            held ==> final(self).entries_spec() == without_block(old(self).entries_spec(), key).push(
                old(self).entries_spec()[index_of_key(old(self).entries_spec(), key)],
            ),
            !held ==> final(self).entries_spec() == old(self).entries_spec(),
    {
        match self.find(key) {
            Some(i) => {
                let ghost before = self.entries@;
                let e = self.entries.remove(i);
                proof {
                    lemma_bytes_remove(before, i as int);
                    lemma_unique_remove(before, i as int);
                    lemma_bytes_push(self.entries@, e);
                }
                self.entries.push(e);
                proof {
                    let r = before.remove(i as int);
                    assert forall|a: int, b: int| 0 <= a < b < self.entries@.len() implies (
                    #[trigger] self.entries@[a]).key != (#[trigger] self.entries@[b]).key by {
                        if b == r.len() {
                            assert(self.entries@[a] == r[a]);
                        } else {
                            assert(self.entries@[a] == r[a] && self.entries@[b] == r[b]);
                        }
                    }
                }
                true
            },
            None => false,
        }
    }

    /// Holds `block`, of `bytes` bytes, for `key` as the most recently used,
    /// in place of what was held for it. Least recently used blocks leave
    /// first, until the new one fits within the budget or none is left;
    /// they come back in the order they left.
    pub fn insert(&mut self, key: BlockKey, block: B, bytes: usize) -> (evicted: Vec<CacheEntry<B>>)
        requires
            old(self).wf(),
            bytes_of(old(self).entries_spec()) + bytes <= usize::MAX,
        ensures
            final(self).wf(),
            final(self).limit() == old(self).limit(),
            ({
                let base = without_block(old(self).entries_spec(), key);
                let k = evict_count(base, bytes as int, old(self).limit() as int);
                &&& evicted@ == base.take(k as int)
                &&& final(self).entries_spec() == base.skip(k as int).push(CacheEntry { key, block, bytes })
            }),
    {
        let ghost start = self.entries@;
        proof {
            lemma_bytes_nonneg(start);
        }
        match self.find(key) {
            Some(i) => {
                let old_entry = self.entries.remove(i);
                proof {
                    lemma_bytes_remove(start, i as int);
                    lemma_unique_remove(start, i as int);
                    lemma_bytes_nonneg(start.remove(i as int));
                }
                self.ram_bytes = self.ram_bytes - old_entry.bytes;
            },
            None => {},
        }
        let ghost base = self.entries@;
        proof {
            lemma_index_range(start, key);
            assert(base == without_block(start, key));
            lemma_bytes_nonneg(base);
            assert(base.len() == self.entries.len());
        }
        let mut evicted: Vec<CacheEntry<B>> = Vec::new();
        let ghost limit = self.ram_limit as int;
        let mut k: usize = 0;
        while self.entries.len() > 0 && self.ram_bytes + bytes > self.ram_limit
            invariant
                k <= base.len(),
                base.len() <= usize::MAX,
                self.entries@ == base.skip(k as int),
                evicted@ == base.take(k as int),
                self.ram_bytes == bytes_of(self.entries@),
                self.ram_limit == limit,
                limit >= 1,
                keys_unique(self.entries@),
                bytes_of(self.entries@) + bytes <= usize::MAX,
                evict_count(base, bytes as int, limit) == k + evict_count(self.entries@, bytes as int, limit),
            decreases self.entries@.len(),
        {
            let ghost before = self.entries@;
            let e = self.entries.remove(0);
            proof {
                lemma_bytes_remove(before, 0);
                lemma_unique_remove(before, 0);
                lemma_bytes_nonneg(self.entries@);
                assert(before.remove(0) =~= before.drop_first());
                assert(base.skip(k + 1) =~= before.drop_first());
                assert(base.take(k + 1) =~= base.take(k as int).push(e));
            }
            self.ram_bytes = self.ram_bytes - e.bytes;
            evicted.push(e);
            k += 1;
        }
        proof {
            lemma_bytes_push(self.entries@, CacheEntry { key, block, bytes });
            assert(evict_count(self.entries@, bytes as int, limit) == 0);
        }
        let ghost kept = self.entries@;
        self.ram_bytes = self.ram_bytes + bytes;
        self.entries.push(CacheEntry { key, block, bytes });
        proof {
            assert forall|a: int, b: int| 0 <= a < b < self.entries@.len() implies (#[trigger] self.entries@[a]).key
                != (#[trigger] self.entries@[b]).key by {
                if b == kept.len() {
                    assert(self.entries@[a] == kept[a]);
                    assert(kept[a] == base[a + k]);
                    if index_of_key(start, key) < start.len() {
                        lemma_unique_remove(start, index_of_key(start, key));
                    } else {
                        lemma_index_absent(start, key);
                    }
                } else {
                    assert(self.entries@[a] == kept[a] && self.entries@[b] == kept[b]);
                }
            }
        }
        evicted
    }
}

proof fn lemma_index_absent<B>(s: Seq<CacheEntry<B>>, key: BlockKey)
    requires
        index_of_key(s, key) >= s.len(),
    ensures
        forall|j: int| 0 <= j < s.len() ==> (#[trigger] s[j]).key != key,
    decreases s.len(),
{
    if s.len() > 0 {
        lemma_index_absent(s.drop_first(), key);
        assert forall|j: int| 0 <= j < s.len() implies (#[trigger] s[j]).key != key by {
            if j > 0 {
                assert(s[j] == s.drop_first()[j - 1]);
            }
        }
    }
}


/// After the least recently used entries leave, what is left fits with the
/// incoming bytes, unless nothing is left.
proof fn lemma_evict_count_fits<B>(s: Seq<CacheEntry<B>>, incoming: int, limit: int)
    ensures
        evict_count(s, incoming, limit) <= s.len(),
        s.skip(evict_count(s, incoming, limit) as int).len() == 0 || bytes_of(
            s.skip(evict_count(s, incoming, limit) as int),
        ) + incoming <= limit,
    decreases s.len(),
{
    if s.len() == 0 || bytes_of(s) + incoming <= limit {
        assert(s.skip(0) =~= s);
    } else {
        let t = s.drop_first();
        lemma_evict_count_fits(t, incoming, limit);
        let k = evict_count(t, incoming, limit);
        assert(s.skip(k as int + 1) =~= t.skip(k as int));
    }
}

/// The blocks held after an insert fit within the budget, unless the new
/// block alone is over it and is all that is held.
pub proof fn law_insert_keeps_budget<B>(
    entries: Seq<CacheEntry<B>>,
    key: BlockKey,
    block: B,
    bytes: usize,
    limit: usize,
)
    ensures
        ({
            let base = without_block(entries, key);
            let k = evict_count(base, bytes as int, limit as int);
            let after = base.skip(k as int).push(CacheEntry { key, block, bytes });
            bytes_of(after) <= limit || after.len() == 1
        }),
{
    let base = without_block(entries, key);
    lemma_evict_count_fits(base, bytes as int, limit as int);
    let k = evict_count(base, bytes as int, limit as int);
    lemma_bytes_push(base.skip(k as int), CacheEntry { key, block, bytes });
}

} // verus!
